//! The 19x19 grid of pieces: construction from a sparse cell map, board
//! diffing, capture detection along the eight outward rays, and move
//! application with capture removal.

use vstd::prelude::*;
use crate::piece::{Piece, PieceWrap};
use crate::position::Position;

verus! {

/// Bit `j` of a capture bitfield.
pub open spec fn bit_u8(m: u8, j: u8) -> bool {
    (m >> j) & 1 == 1
}

/// Number of set bits among the low `n` bits.
pub open spec fn popcount_u8(m: u8, n: int) -> int
    decreases n,
{
    if n <= 0 {
        0
    } else {
        popcount_u8(m, n - 1) + if bit_u8(m, (n - 1) as u8) {
            1int
        } else {
            0int
        }
    }
}

pub proof fn lemma_or_bit(m: u8, d: u8, j: u8)
    requires
        d < 8,
        j < 8,
    ensures
        bit_u8(m | (1u8 << d), j) == (j == d || bit_u8(m, j)),
{
    assert((((m | (1u8 << d)) >> j) & 1 == 1) == (j == d || ((m >> j) & 1 == 1)))
        by (bit_vector)
        requires d < 8 && j < 8;
}

/// Setting one clear bit raises the popcount by one (when the bit lies
/// below the counted range).
pub proof fn lemma_popcount_or_bit(m: u8, k: u8, n: int)
    requires
        k < 8,
        !bit_u8(m, k),
        0 <= n <= 8,
    ensures
        popcount_u8(m | (1u8 << k), n) == popcount_u8(m, n) + if k < n { 1int } else { 0int },
    decreases n,
{
    if n > 0 {
        lemma_popcount_or_bit(m, k, n - 1);
        lemma_or_bit(m, k, (n - 1) as u8);
    }
}

pub proof fn lemma_zero_bit(j: u8)
    ensures
        !bit_u8(0u8, j),
{
    assert(!((0u8 >> j) & 1 == 1)) by (bit_vector);
}

pub proof fn lemma_popcount_zero(n: int)
    requires
        0 <= n <= 8,
    ensures
        popcount_u8(0u8, n) == 0,
    decreases n,
{
    if n > 0 {
        lemma_popcount_zero(n - 1);
        lemma_zero_bit((n - 1) as u8);
    }
}

/// Both coordinates on the board.
pub open spec fn spec_in_bounds(x: int, y: int) -> bool {
    0 <= x < 19 && 0 <= y < 19
}

/// X step of outward ray `d`. The ray order is fixed: left, right, up,
/// down, up-left, down-right, down-left, up-right; capture bitfields and
/// the removal table are indexed by it.
pub open spec fn ray_dx(d: int) -> int {
    if d == 0 { -1 }
    else if d == 1 { 1 }
    else if d == 2 { 0 }
    else if d == 3 { 0 }
    else if d == 4 { -1 }
    else if d == 5 { 1 }
    else if d == 6 { -1 }
    else { 1 }
}

/// Y step of outward ray `d`.
pub open spec fn ray_dy(d: int) -> int {
    if d == 0 { 0 }
    else if d == 1 { 0 }
    else if d == 2 { -1 }
    else if d == 3 { 1 }
    else if d == 4 { -1 }
    else if d == 5 { 1 }
    else if d == 6 { 1 }
    else { -1 }
}

/// The cell `k` steps from `pos` along ray `d` is on the board.
pub open spec fn ray_in(pos: Position, d: int, k: int) -> bool {
    spec_in_bounds(pos.x + k * ray_dx(d), pos.y + k * ray_dy(d))
}

/// Row-major index of the cell `k` steps from `pos` along ray `d`.
pub open spec fn ray_index(pos: Position, d: int, k: int) -> int {
    (pos.y + k * ray_dy(d)) * 19 + (pos.x + k * ray_dx(d))
}

/// Row-major indices identify cells uniquely.
pub proof fn lemma_index_injective(x1: int, y1: int, x2: int, y2: int)
    requires
        spec_in_bounds(x1, y1),
        spec_in_bounds(x2, y2),
        y1 * 19 + x1 == y2 * 19 + x2,
    ensures
        x1 == x2,
        y1 == y2,
{
}

/// Ray `d` from `pos` holds the capture pattern for `player`: two
/// opponent stones then a stone of `player`.
pub open spec fn spec_capture_ray(b: Seq<Piece>, pos: Position, player: Piece, d: int) -> bool {
    &&& ray_in(pos, d, 1)
    &&& ray_in(pos, d, 2)
    &&& ray_in(pos, d, 3)
    &&& b[ray_index(pos, d, 1)] == player.opposite_spec()
    &&& b[ray_index(pos, d, 2)] == player.opposite_spec()
    &&& b[ray_index(pos, d, 3)] == player
}

/// The two near cells of ray `d` hold opponent stones; this is all that
/// move application checks before removing them.
pub open spec fn spec_capture_cells(b: Seq<Piece>, pos: Position, player: Piece, d: int) -> bool {
    &&& ray_in(pos, d, 1)
    &&& ray_in(pos, d, 2)
    &&& b[ray_index(pos, d, 1)] == player.opposite_spec()
    &&& b[ray_index(pos, d, 2)] == player.opposite_spec()
}

/// Number of rays below `n` holding the capture pattern.
pub open spec fn spec_ray_count(b: Seq<Piece>, pos: Position, player: Piece, n: int) -> int
    decreases n,
{
    if n <= 0 {
        0
    } else {
        spec_ray_count(b, pos, player, n - 1) + if spec_capture_ray(b, pos, player, n - 1) {
            1int
        } else {
            0int
        }
    }
}

/// Cell `i` is removed when the capture bitfield `m` is applied at `pos`:
/// it sits one or two steps out along a selected ray.
pub open spec fn spec_cleared_mask(pos: Position, m: u8, i: int) -> bool {
    exists|d: u8|
        d < 8 && bit_u8(m, d) && ray_in(pos, d as int, 1) && ray_in(pos, d as int, 2)
            && (i == ray_index(pos, d as int, 1) || i == ray_index(pos, d as int, 2))
}

/// Cell `i` is removed when captures are re-detected at `pos`.
pub open spec fn spec_cleared_auto(b: Seq<Piece>, pos: Position, player: Piece, i: int) -> bool {
    exists|d: u8|
        d < 8 && spec_capture_ray(b, pos, player, d as int)
            && (i == ray_index(pos, d as int, 1) || i == ray_index(pos, d as int, 2))
}

/// The board after `player` moves to `pos` with capture bitfield `m`.
pub open spec fn spec_after_move_mask(b: Seq<Piece>, pos: Position, player: Piece, m: u8) -> Seq<Piece> {
    Seq::new(361, |i: int|
        if i == pos.index() {
            player
        } else if spec_cleared_mask(pos, m, i) {
            Piece::Empty
        } else {
            b[i]
        })
}

/// The board after `player` moves to `pos` with captures re-detected.
pub open spec fn spec_after_move_auto(b: Seq<Piece>, pos: Position, player: Piece) -> Seq<Piece> {
    Seq::new(361, |i: int|
        if i == pos.index() {
            player
        } else if spec_cleared_auto(b, pos, player, i) {
            Piece::Empty
        } else {
            b[i]
        })
}

pub struct Board {
    data: Vec<Piece>,
}

impl View for Board {
    type V = Seq<Piece>;

    closed spec fn view(&self) -> Seq<Piece> {
        self.data@
    }
}

impl Clone for Board {
    fn clone(&self) -> (r: Board)
        ensures
            r@ == self@,
    {
        let mut data: Vec<Piece> = Vec::new();
        let mut i: usize = 0;
        while i < self.data.len()
            invariant
                i <= self.data.len(),
                data@ == self.data@.take(i as int),
            decreases self.data.len() - i,
        {
            data.push(self.data[i]);
            proof {
                assert(data@ =~= self.data@.take(i + 1));
            }
            i = i + 1;
        }
        proof {
            assert(self.data@.take(self.data@.len() as int) =~= self.data@);
        }
        Board { data }
    }
}

impl Board {
    /// The grid holds exactly one piece for each of the 361 cells.
    pub open spec fn wf(self) -> bool {
        self@.len() == 361
    }

    /// The piece at a position.
    pub open spec fn spec_at(self, pos: Position) -> Piece {
        self@[pos.index()]
    }

    pub fn new() -> (r: Board)
        ensures
            r.wf(),
            forall|i: int| 0 <= i < 361 ==> r@[i] == Piece::Empty,
    {
        let data: Vec<Piece> = vec![Piece::Empty; 361];
        proof {
            assert(forall|i: int| 0 <= i < 361 ==> cloned(Piece::Empty, #[trigger] data@[i]));
        }
        Board { data }
    }

    /// Value of cell `c` under a sparse `(cell index, player code)` list,
    /// where a later entry overrides an earlier one for the same cell.
    pub open spec fn spec_sparse_cell(entries: Seq<(u64, u64)>, c: int) -> Piece
        decreases entries.len(),
    {
        if entries.len() == 0 {
            Piece::Empty
        } else if entries.last().0 == c {
            Piece::spec_from_code(entries.last().1)
        } else {
            Self::spec_sparse_cell(entries.drop_last(), c)
        }
    }

    /// Build a board from a sparse map of cell index to player code
    /// (missing cells are empty).
    pub fn from_map(entries: &Vec<(u64, u64)>) -> (r: Board)
        requires
            forall|i: int| 0 <= i < entries@.len() ==> (#[trigger] entries@[i]).0 < 361,
        ensures
            r.wf(),
            forall|c: int| 0 <= c < 361 ==> r@[c] == Self::spec_sparse_cell(entries@, c),
    {
        let mut board = Board::new();
        let mut i: usize = 0;
        proof {
            assert(forall|c: int| 0 <= c < 361
                ==> Self::spec_sparse_cell(entries@.take(0), c) == Piece::Empty);
        }
        while i < entries.len()
            invariant
                i <= entries@.len(),
                board.wf(),
                forall|j: int| 0 <= j < entries@.len() ==> (#[trigger] entries@[j]).0 < 361,
                forall|c: int| 0 <= c < 361
                    ==> board@[c] == Self::spec_sparse_cell(entries@.take(i as int), c),
            decreases entries@.len() - i,
        {
            let (key, code) = entries[i];
            let key_idx = key as usize;
            let piece = Piece::from_code(code);
            board.data[key_idx] = piece;
            proof {
                let t1 = entries@.take(i + 1);
                assert(t1.drop_last() =~= entries@.take(i as int));
                assert(t1.last() == entries@[i as int]);
                assert(forall|c: int| 0 <= c < 361 && c != key_idx
                    ==> Self::spec_sparse_cell(t1, c)
                        == Self::spec_sparse_cell(entries@.take(i as int), c));
            }
            i = i + 1;
        }
        proof {
            assert(entries@.take(entries@.len() as int) =~= entries@);
        }
        board
    }

    /// Positions where the two boards disagree, in row-major order.
    pub fn get_diff(b1: &Board, b2: &Board) -> (r: Vec<Position>)
        requires
            b1.wf(),
            b2.wf(),
        ensures
            r@.len() <= 361,
            forall|i: int, j: int| 0 <= i < j < r@.len() ==> r@[i].index() < r@[j].index(),
            forall|i: int| 0 <= i < r@.len()
                ==> (#[trigger] r@[i]).wf() && b1@[r@[i].index()] != b2@[r@[i].index()],
            forall|p: Position| p.wf() && b1@[p.index()] != b2@[p.index()] ==> r@.contains(p),
    {
        let mut diffs: Vec<Position> = Vec::new();
        let mut c: usize = 0;
        while c < 361
            invariant
                c <= 361,
                b1.wf(),
                b2.wf(),
                diffs@.len() <= c,
                forall|i: int, j: int| 0 <= i < j < diffs@.len()
                    ==> diffs@[i].index() < diffs@[j].index(),
                forall|i: int| 0 <= i < diffs@.len()
                    ==> (#[trigger] diffs@[i]).wf() && diffs@[i].index() < c
                        && b1@[diffs@[i].index()] != b2@[diffs@[i].index()],
                forall|p: Position| p.wf() && p.index() < c && b1@[p.index()] != b2@[p.index()]
                    ==> diffs@.contains(p),
            decreases 361 - c,
        {
            let pos = Position::from_u64(c);
            let ghost prev = diffs@;
            if b1.data[c] != b2.data[c] {
                diffs.push(pos);
                proof {
                    assert(diffs@.contains(pos)) by {
                        assert(diffs@[diffs@.len() - 1] == pos);
                    }
                }
            }
            proof {
                assert forall|p: Position| prev.contains(p) implies diffs@.contains(p) by {
                    let i = choose|i: int| 0 <= i < prev.len() && prev[i] == p;
                    assert(diffs@[i] == p);
                }
                assert forall|p: Position| p.wf() && p.index() < c + 1
                    && b1@[p.index()] != b2@[p.index()] implies diffs@.contains(p) by {
                    if p.index() < c {
                        assert(prev.contains(p));
                    } else {
                        assert(p == pos);
                    }
                }
            }
            c = c + 1;
        }
        diffs
    }

    pub fn get(&self, x: usize, y: usize) -> (r: Piece)
        requires
            self.wf(),
            x < 19,
            y < 19,
        ensures
            r == self@[y * 19 + x],
    {
        self.data[y * 19 + x]
    }

    /// The piece at `pos`.
    pub fn at(&self, pos: &Position) -> (r: Piece)
        requires
            self.wf(),
            pos.wf(),
        ensures
            r == self.spec_at(*pos),
    {
        self.data[pos.y * 19 + pos.x]
    }

    fn set_at(&mut self, pos: &Position, piece: Piece)
        requires
            old(self).wf(),
            pos.wf(),
        ensures
            final(self)@ == old(self)@.update(pos.index(), piece),
    {
        self.data[pos.y * 19 + pos.x] = piece;
    }

    pub fn len(&self) -> (r: usize)
        ensures
            r == self@.len(),
    {
        self.data.len()
    }

    /// X and Y steps of outward ray `d`.
    fn ray_delta(d: usize) -> (r: (i32, i32))
        requires
            d < 8,
        ensures
            r.0 == ray_dx(d as int),
            r.1 == ray_dy(d as int),
    {
        match d {
            0 => (-1, 0),
            1 => (1, 0),
            2 => (0, -1),
            3 => (0, 1),
            4 => (-1, -1),
            5 => (1, 1),
            6 => (-1, 1),
            _ => (1, -1),
        }
    }

    /// Bitfield over the eight outward rays: bit `d` is set exactly when
    /// the three cells at distances 1, 2, 3 along ray `d` read opponent,
    /// opponent, `player`.
    pub fn get_captures(board: &Board, pos: Position, player: Piece) -> (r: u8)
        requires
            board.wf(),
            pos.wf(),
            player.is_piece_spec(),
        ensures
            forall|d: u8| d < 8
                ==> (bit_u8(r, d) <==> spec_capture_ray(board@, pos, player, d as int)),
    {
        let mut rv: u8 = 0;
        proof {
            assert forall|j: u8| j < 8 implies !bit_u8(rv, j) by {
                lemma_zero_bit(j);
            }
        }
        let opp = player.get_opposite();
        let mut d: usize = 0;
        while d < 8
            invariant
                d <= 8,
                board.wf(),
                pos.wf(),
                player.is_piece_spec(),
                opp == player.opposite_spec(),
                forall|j: u8| j < d ==> (bit_u8(rv, j) <==> spec_capture_ray(board@, pos, player, j as int)),
                forall|j: u8| d <= j < 8 ==> !bit_u8(rv, j),
            decreases 8 - d,
        {
            let (dx, dy) = Self::ray_delta(d);
            let mut p1 = pos;
            let mut p2 = pos;
            let mut p3 = pos;
            let hit = p1.relocate_n(dx, dy, 1).is_ok() && board.at(&p1) == opp
                && p2.relocate_n(dx, dy, 2).is_ok() && board.at(&p2) == opp
                && p3.relocate_n(dx, dy, 3).is_ok() && board.at(&p3).is_equal(&player);
            proof {
                assert(hit == spec_capture_ray(board@, pos, player, d as int));
            }
            if hit {
                let ghost old_rv = rv;
                rv = rv | (1u8 << (d as u8));
                proof {
                    assert forall|j: u8| j < 8 implies
                        bit_u8(rv, j) == (j == d || bit_u8(old_rv, j)) by {
                        lemma_or_bit(old_rv, d as u8, j);
                    }
                }
            }
            d = d + 1;
        }
        rv
    }

    /// Write `player` at the empty cell `pos` and remove the two opponent
    /// stones along every selected capture ray; the rays come from the
    /// given bitfield, or are re-detected when none is given. Returns the
    /// number of pairs captured.
    pub fn set_move(&mut self, pos: Position, player: Piece, capture_map: Option<u8>) -> (r: usize)
        requires
            old(self).wf(),
            pos.wf(),
            player.is_piece_spec(),
            old(self)@[pos.index()] is Empty,
            capture_map matches Some(m) ==> forall|d: u8| d < 8 && #[trigger] bit_u8(m, d)
                ==> spec_capture_cells(old(self)@, pos, player, d as int),
        ensures
            final(self).wf(),
            capture_map is None ==> final(self)@ == spec_after_move_auto(old(self)@, pos, player)
                && r == spec_ray_count(old(self)@, pos, player, 8),
            capture_map matches Some(m) ==> final(self)@ == spec_after_move_mask(old(self)@, pos, player, m)
                && r == popcount_u8(m, 8),
    {
        let ghost b0 = self@;
        self.set_at(&pos, player);
        let ghost b1 = self@;

        // Re-detection reads only cells strictly outside `pos`, so it sees
        // the same rays before and after the stone is placed.
        proof {
            lemma_rays_unchanged(b0, b1, pos, player);
        }

        let mask: u8 = match capture_map {
            Some(m) => m,
            None => Self::get_captures(&self, pos, player),
        };

        proof {
            if capture_map is None {
                assert(forall|d: u8| d < 8
                    ==> (bit_u8(mask, d) <==> spec_capture_ray(b0, pos, player, d as int)));
                assert(forall|d: u8| d < 8 && #[trigger] bit_u8(mask, d)
                    ==> spec_capture_cells(b0, pos, player, d as int));
            }
        }

        let mut capture_count: usize = 0;
        let mut map_idx: usize = 0;
        while map_idx < 8
            invariant
                map_idx <= 8,
                pos.wf(),
                player.is_piece_spec(),
                b0.len() == 361,
                b1 == b0.update(pos.index(), player),
                capture_count <= map_idx,
                capture_count == popcount_u8(mask, map_idx as int),
                forall|d: u8| d < 8 && #[trigger] bit_u8(mask, d)
                    ==> spec_capture_cells(b0, pos, player, d as int),
                self@.len() == 361,
                forall|i: int| 0 <= i < 361 ==> self@[i] == spec_partial(b0, pos, player, mask, map_idx as int, i),
            decreases 8 - map_idx,
        {
            let needs_capture = (mask >> (map_idx as u8)) & 1;
            if needs_capture == 1 {
                assert(bit_u8(mask, map_idx as u8));
                let (dx, dy) = Self::ray_delta(map_idx);
                let mut p1 = pos;
                let mut p2 = pos;
                let ok1 = p1.relocate_n(dx, dy, 1);
                let ok2 = p2.relocate_n(dx, dy, 2);
                assert(ok1 is Ok && ok2 is Ok);
                let ghost before = self@;
                self.set_at(&p1, Piece::Empty);
                self.set_at(&p2, Piece::Empty);
                proof {
                    lemma_partial_step_set(b0, pos, player, mask, map_idx as int, before, self@, p1, p2);
                }
                capture_count = capture_count + 1;
            } else {
                proof {
                    assert(!bit_u8(mask, map_idx as u8));
                    assert forall|i: int| 0 <= i < 361 implies
                        self@[i] == spec_partial(b0, pos, player, mask, map_idx as int + 1, i) by {
                        lemma_partial_skip(b0, pos, player, mask, map_idx as int, i);
                    }
                }
            }
            map_idx = map_idx + 1;
        }

        proof {
            if capture_map is Some {
                assert(self@ =~= spec_after_move_mask(b0, pos, player, mask));
            } else {
                assert(self@ =~= spec_after_move_mask(b0, pos, player, mask));
                assert(spec_after_move_mask(b0, pos, player, mask)
                    =~= spec_after_move_auto(b0, pos, player)) by {
                    assert forall|i: int| 0 <= i < 361 implies
                        spec_cleared_mask(pos, mask, i) == spec_cleared_auto(b0, pos, player, i) by {
                        if spec_cleared_mask(pos, mask, i) {
                            let d = choose|d: u8| d < 8 && bit_u8(mask, d)
                                && ray_in(pos, d as int, 1) && ray_in(pos, d as int, 2)
                                && (i == ray_index(pos, d as int, 1) || i == ray_index(pos, d as int, 2));
                            assert(spec_capture_ray(b0, pos, player, d as int));
                        }
                        if spec_cleared_auto(b0, pos, player, i) {
                            let d = choose|d: u8| d < 8 && spec_capture_ray(b0, pos, player, d as int)
                                && (i == ray_index(pos, d as int, 1) || i == ray_index(pos, d as int, 2));
                            assert(bit_u8(mask, d));
                        }
                    }
                }
                lemma_ray_count_popcount(b0, pos, player, mask, 8);
            }
        }
        capture_count
    }
}

/// The board state mid-application: the stone placed, and the rays below
/// `n` already cleared.
pub open spec fn spec_partial(b: Seq<Piece>, pos: Position, player: Piece, m: u8, n: int, i: int) -> Piece {
    if i == pos.index() {
        player
    } else if spec_cleared_mask_below(pos, m, n, i) {
        Piece::Empty
    } else {
        b[i]
    }
}

/// `spec_cleared_mask` restricted to rays below `n`.
pub open spec fn spec_cleared_mask_below(pos: Position, m: u8, n: int, i: int) -> bool {
    exists|d: u8|
        d < n && d < 8 && bit_u8(m, d) && ray_in(pos, d as int, 1) && ray_in(pos, d as int, 2)
            && (i == ray_index(pos, d as int, 1) || i == ray_index(pos, d as int, 2))
}

/// Placing a stone at `pos` does not change what the capture rays from
/// `pos` read: they look only at cells away from `pos`.
proof fn lemma_rays_unchanged(b0: Seq<Piece>, b1: Seq<Piece>, pos: Position, player: Piece)
    requires
        b0.len() == 361,
        pos.wf(),
        b1 == b0.update(pos.index(), player),
    ensures
        forall|d: int| 0 <= d < 8
            ==> (spec_capture_ray(b1, pos, player, d) <==> spec_capture_ray(b0, pos, player, d)),
{
    assert forall|d: int| 0 <= d < 8 implies
        (spec_capture_ray(b1, pos, player, d) <==> spec_capture_ray(b0, pos, player, d)) by {
        assert forall|k: int| 1 <= k <= 3 && ray_in(pos, d, k) implies
            ray_index(pos, d, k) != pos.index() by {
            if ray_index(pos, d, k) == pos.index() {
                lemma_index_injective(
                    pos.x + k * ray_dx(d), pos.y + k * ray_dy(d),
                    pos.x as int, pos.y as int);
            }
        }
    }
}

/// Skipping an unselected ray leaves the partial board unchanged.
proof fn lemma_partial_skip(b: Seq<Piece>, pos: Position, player: Piece, m: u8, n: int, i: int)
    requires
        0 <= n < 8,
        !bit_u8(m, n as u8),
    ensures
        spec_partial(b, pos, player, m, n, i) == spec_partial(b, pos, player, m, n + 1, i),
{
    if spec_cleared_mask_below(pos, m, n + 1, i) {
        let d = choose|d: u8| d < n + 1 && d < 8 && bit_u8(m, d)
            && ray_in(pos, d as int, 1) && ray_in(pos, d as int, 2)
            && (i == ray_index(pos, d as int, 1) || i == ray_index(pos, d as int, 2));
        assert(d < n);
        assert(spec_cleared_mask_below(pos, m, n, i));
    }
}

/// Clearing the two near cells of a selected ray advances the partial
/// board by one ray.
proof fn lemma_partial_step_set(
    b: Seq<Piece>, pos: Position, player: Piece, m: u8, n: int,
    before: Seq<Piece>, after: Seq<Piece>, p1: Position, p2: Position,
)
    requires
        0 <= n < 8,
        bit_u8(m, n as u8),
        pos.wf(),
        b.len() == 361,
        before.len() == 361,
        p1.x == pos.x + ray_dx(n) && p1.y == pos.y + ray_dy(n),
        p2.x == pos.x + 2 * ray_dx(n) && p2.y == pos.y + 2 * ray_dy(n),
        p1.wf(),
        p2.wf(),
        after == before.update(p1.index(), Piece::Empty).update(p2.index(), Piece::Empty),
        forall|i: int| 0 <= i < 361 ==> before[i] == spec_partial(b, pos, player, m, n, i),
    ensures
        forall|i: int| 0 <= i < 361 ==> after[i] == spec_partial(b, pos, player, m, n + 1, i),
{
    assert(p1.index() == ray_index(pos, n, 1));
    assert(p2.index() == ray_index(pos, n, 2));
    assert(ray_in(pos, n, 1) && ray_in(pos, n, 2));
    // Neither cleared cell is the cell just played.
    assert(p1.index() != pos.index() && p2.index() != pos.index()) by {
        if p1.index() == pos.index() {
            lemma_index_injective(p1.x as int, p1.y as int, pos.x as int, pos.y as int);
        }
        if p2.index() == pos.index() {
            lemma_index_injective(p2.x as int, p2.y as int, pos.x as int, pos.y as int);
        }
    }
    assert forall|i: int| 0 <= i < 361 implies
        after[i] == spec_partial(b, pos, player, m, n + 1, i) by {
        if i == p1.index() || i == p2.index() {
            assert(spec_cleared_mask_below(pos, m, n + 1, i)) by {
                let dw = n as u8;
                assert(dw < n + 1);
                assert(bit_u8(m, dw));
            }
            assert(after[i] == Piece::Empty);
        } else {
            assert(after[i] == before[i]);
            if spec_cleared_mask_below(pos, m, n + 1, i) {
                let d = choose|d: u8| d < n + 1 && d < 8 && bit_u8(m, d)
                    && ray_in(pos, d as int, 1) && ray_in(pos, d as int, 2)
                    && (i == ray_index(pos, d as int, 1) || i == ray_index(pos, d as int, 2));
                if d == n {
                    assert(i == p1.index() || i == p2.index());
                } else {
                    assert(spec_cleared_mask_below(pos, m, n, i));
                }
            }
            if spec_cleared_mask_below(pos, m, n, i) {
                assert(spec_cleared_mask_below(pos, m, n + 1, i));
            }
        }
    }
}

/// When the bits of `m` coincide with the capture rays, their popcount is
/// the ray count.
proof fn lemma_ray_count_popcount(b: Seq<Piece>, pos: Position, player: Piece, m: u8, n: int)
    requires
        0 <= n <= 8,
        forall|d: u8| d < 8 ==> (bit_u8(m, d) <==> spec_capture_ray(b, pos, player, d as int)),
    ensures
        popcount_u8(m, n) == spec_ray_count(b, pos, player, n),
    decreases n,
{
    if n > 0 {
        lemma_ray_count_popcount(b, pos, player, m, n - 1);
    }
}

/// Walks the 361 positions in row-major order.
pub struct BoardIterator {
    pub index: usize,
}

impl BoardIterator {
    pub fn new() -> (r: BoardIterator)
        ensures
            r.index == 0,
    {
        BoardIterator { index: 0 }
    }

    pub open spec fn spec_index(self) -> int {
        self.index as int
    }

    pub fn next(&mut self) -> (r: Option<Position>)
        ensures
            old(self).index < 361 ==> (r matches Some(p) && p.wf() && p.index() == old(self).index
                && final(self).index == old(self).index + 1),
            old(self).index >= 361 ==> r is None && final(self).index == old(self).index,
    {
        if self.index >= 361 {
            return None;
        }
        let pos = Position::from_u64(self.index);
        self.index = self.index + 1;
        Some(pos)
    }
}

impl Board {
    /// An iterator over all 361 positions of the board.
    pub fn into_iter(&self) -> (r: BoardIterator)
        ensures
            r.index == 0,
    {
        BoardIterator::new()
    }
}

/// At most one pair per ray: popcounts are bounded by the bit range.
pub proof fn lemma_popcount_bound(m: u8, n: int)
    requires
        0 <= n,
    ensures
        0 <= popcount_u8(m, n) <= n,
    decreases n,
{
    if n > 0 {
        lemma_popcount_bound(m, n - 1);
    }
}

pub proof fn lemma_ray_count_bound(b: Seq<Piece>, pos: Position, player: Piece, n: int)
    requires
        0 <= n,
    ensures
        0 <= spec_ray_count(b, pos, player, n) <= n,
    decreases n,
{
    if n > 0 {
        lemma_ray_count_bound(b, pos, player, n - 1);
    }
}

impl Board {
    /// Whether every ray selected by the capture bitfield really holds
    /// two opponent stones next to `pos`: exactly what applying the
    /// bitfield will rely on.
    #[verifier::loop_isolation(false)]
    pub fn check_capture_map(board: &Board, pos: Position, player: Piece, m: u8) -> (r: bool)
        requires
            board.wf(),
            pos.wf(),
            player.is_piece_spec(),
        ensures
            r == (forall|d: u8| d < 8 && #[trigger] bit_u8(m, d)
                ==> spec_capture_cells(board@, pos, player, d as int)),
    {
        let opp = player.get_opposite();
        let mut d: usize = 0;
        while d < 8
            invariant
                d <= 8,
                opp == player.opposite_spec(),
                forall|j: u8| j < d && #[trigger] bit_u8(m, j)
                    ==> spec_capture_cells(board@, pos, player, j as int),
            decreases 8 - d,
        {
            if (m >> (d as u8)) & 1 == 1 {
                let (dx, dy) = Self::ray_delta(d);
                let mut p1 = pos;
                let mut p2 = pos;
                let ok = p1.relocate_n(dx, dy, 1).is_ok() && board.at(&p1) == opp
                    && p2.relocate_n(dx, dy, 2).is_ok() && board.at(&p2) == opp;
                if !ok {
                    proof {
                        assert(bit_u8(m, d as u8)
                            && !spec_capture_cells(board@, pos, player, d as int));
                    }
                    return false;
                }
            }
            d = d + 1;
        }
        true
    }
}

} // verus!
