use vstd::prelude::*;
use core::ops::{BitAnd, Not};
use crate::board::Board;
use crate::collision_map::{collides_spec, landed_bit, solid};
use crate::data::{piece_cells, piece_cells_spec, lemma_piece_cells_bounded};
use crate::header::{
    COLS, COL_MASK, bit, lemma_bit_low_ones, lemma_bit_ones, lemma_bit_or, lemma_bit_shl,
    lemma_bit_shr, lemma_bit_test, lemma_bit_zero,
};
use crate::piece::{Piece, canonical_rotations_spec, piece_from_index};
use crate::rotation::{Rotation, rot_index, rot_from_index};
use crate::vector::SimdBoard;

verus! {

/// Mapping from `(rotation, column)` to a bitmask of rows that collide with
/// the piece in that rotation when placed at that column. Only the canonical
/// rotations of the piece are filled in by `CollisionMap::new`.
#[derive(Clone, Copy, Debug, PartialEq, Eq)]
pub struct CollisionMap(pub [Board; 4]);

/// The data `CollisionMap::new` needs for one rotation of a piece: the four
/// cell offsets and, for each cell below the pivot, the mask of rows that
/// lie below the floor from its point of view.
pub struct RotData {
    pub cells: [(i8, i8); 4],
    pub masks: [u64; 4],
}

/// The offsets and floor masks of `piece` in rotation `rot`.
fn extract_rot_data(piece: Piece, rot: u8) -> (d: RotData)
    requires
        rot < 4,
    ensures
        d.cells@ == piece_cells_spec(piece, rot_from_index(rot as int)),
        forall|i: int, y: u64| 0 <= i < 4 ==> #[trigger] bit(d.masks[i], y) == (y < 64 && y + d.cells[i].1 < 0),
{
    let cells = piece_cells(piece, Rotation::from(rot));
    proof {
        lemma_piece_cells_bounded(piece, rot_from_index(rot as int));
    }
    let mut masks = [0u64; 4];
    let mut i: usize = 0;
    while i < 4
        invariant
            i <= 4,
            cells@ == piece_cells_spec(piece, rot_from_index(rot as int)),
            forall|k: int| 0 <= k < 4 ==> -2 <= (#[trigger] cells@[k]).1 <= 2,
            forall|k: int, y: u64| 0 <= k < i ==> #[trigger] bit(masks[k], y) == (y < 64 && y + cells[k].1 < 0),
        decreases 4 - i,
    {
        let dy = cells[i].1;
        if dy < 0 {
            let s = (-dy) as u64;
            proof {
                lemma_bit_low_ones(s, 0);
            }
            let m = (1u64 << s) - 1;
            proof {
                assert forall|y: u64| #[trigger] bit(m, y) == (y < 64 && y + dy < 0) by {
                    lemma_bit_low_ones(s, y);
                }
            }
            masks[i] = m;
        } else {
            proof {
                assert forall|y: u64| #[trigger] bit(0, y) == (y < 64 && y + dy < 0) by {
                    lemma_bit_zero(y);
                }
            }
            masks[i] = 0;
        }
        i += 1;
    }
    RotData { cells, masks }
}

/// Column `cx` of the board, or a solid wall outside the board.
fn padded_column(board: Board, cx: i32) -> (c: u64)
    ensures
        forall|cy: u64| cy < 64 ==> #[trigger] bit(c, cy) == solid(board, cx as int, cy as int),
{
    if 0 <= cx && cx < 10 {
        board.0[cx as usize]
    } else {
        proof {
            assert forall|cy: u64| cy < 64 implies #[trigger] bit(!0u64, cy) == solid(board, cx as int, cy as int) by {
                lemma_bit_ones(cy);
            }
        }
        !0u64
    }
}

/// The collision column of one rotation at column `x`.
fn rot_column(board: Board, d: &RotData, x: i32) -> (v: u64)
    requires
        0 <= x < 10,
        forall|i: int| 0 <= i < 4 ==> -2 <= (#[trigger] d.cells@[i]).0 <= 2 && -2 <= d.cells@[i].1 <= 2,
        forall|i: int, y: u64| 0 <= i < 4 ==> #[trigger] bit(d.masks[i], y) == (y < 64 && y + d.cells[i].1 < 0),
    ensures
        forall|y: u64| y < 64 ==> #[trigger] bit(v, y) == (solid(board, x + d.cells@[0].0, y + d.cells@[0].1)
            || solid(board, x + d.cells@[1].0, y + d.cells@[1].1)
            || solid(board, x + d.cells@[2].0, y + d.cells@[2].1)
            || solid(board, x + d.cells@[3].0, y + d.cells@[3].1)),
{
    let v0 = one_cell(board, d.cells[0], d.masks[0], x);
    let v1 = one_cell(board, d.cells[1], d.masks[1], x);
    let v2 = one_cell(board, d.cells[2], d.masks[2], x);
    let v3 = one_cell(board, d.cells[3], d.masks[3], x);
    proof {
        assert(d.cells@[0] == d.cells[0] && d.cells@[1] == d.cells[1] && d.cells@[2] == d.cells[2] && d.cells@[3] == d.cells[3]);
        assert forall|y: u64| y < 64 implies #[trigger] bit(v0 | v1 | v2 | v3, y) == (solid(board, x + d.cells@[0].0, y + d.cells@[0].1)
            || solid(board, x + d.cells@[1].0, y + d.cells@[1].1)
            || solid(board, x + d.cells@[2].0, y + d.cells@[2].1)
            || solid(board, x + d.cells@[3].0, y + d.cells@[3].1)) by {
            lemma_bit_or(v0 | v1 | v2, v3, y);
            lemma_bit_or(v0 | v1, v2, y);
            lemma_bit_or(v0, v1, y);
        }
    }
    v0 | v1 | v2 | v3
}

/// The rows at which the mino at offset `cell` hits something, for a pivot
/// in column `x`.
fn one_cell(board: Board, cell: (i8, i8), mask: u64, x: i32) -> (v: u64)
    requires
        0 <= x < 10,
        -2 <= cell.0 <= 2,
        -2 <= cell.1 <= 2,
        forall|y: u64| #[trigger] bit(mask, y) == (y < 64 && y + cell.1 < 0),
    ensures
        forall|y: u64| y < 64 ==> #[trigger] bit(v, y) == solid(board, x + cell.0, y + cell.1),
{
    let (dx, dy) = cell;
    let c = padded_column(board, x + dx as i32);
    if dy >= 0 {
        let s = dy as u64;
        let v = c >> s;
        proof {
            assert forall|y: u64| y < 64 implies #[trigger] bit(v, y) == solid(board, x + dx, y + dy) by {
                lemma_bit_shr(c, s, y);
                if y + s < 64 {
                    assert(bit(c, (y + s) as u64) == solid(board, x + dx, y + dy));
                }
            }
        }
        v
    } else {
        let s = (-dy) as u64;
        let v = (c << s) | mask;
        proof {
            assert forall|y: u64| y < 64 implies #[trigger] bit(v, y) == solid(board, x + dx, y + dy) by {
                lemma_bit_or(c << s, mask, y);
                lemma_bit_shl(c, s, y);
                if y >= s {
                    assert(bit(c, (y - s) as u64) == solid(board, x + dx, y + dy));
                }
            }
        }
        v
    }
}

impl core::ops::Index<Rotation> for CollisionMap {
    type Output = Board;

    /// The collision columns of rotation `index`.
    fn index(&self, index: Rotation) -> (b: &Board)
        ensures
            *b == self.0[rot_index(index)],
    {
        &self.0[index.index()]
    }
}

impl vstd::std_specs::core::IndexSpecImpl<Rotation> for CollisionMap {
    open spec fn index_req(&self, index: &Rotation) -> bool {
        true
    }
}

impl core::ops::IndexMut<Rotation> for CollisionMap {
    /// The collision columns of rotation `index`, to change in place.
    fn index_mut(&mut self, index: Rotation) -> (b: &mut Board)
        ensures
            *b == old(self).0[rot_index(index)],
            final(self).0@ == old(self).0@.update(rot_index(index), *final(b)),
    {
        &mut self.0[index.index()]
    }
}

impl CollisionMap {
    /// Construct a collision map for the given board and the piece with
    /// index `PIECE`: the canonical rotations hold the rows at which the
    /// piece collides, the other rotations stay empty.
    pub fn new<const PIECE: u8>(board: Board) -> (m: CollisionMap)
        requires
            PIECE < 7,
        ensures
            forall|r: int, x: int, y: u64| 0 <= r < 4 && 0 <= x < 10 && y < 64 ==>
                #[trigger] bit(m.0[r].0[x], y) == (r < canonical_rotations_spec(piece_from_index(PIECE as int))
                    && collides_spec(board, piece_from_index(PIECE as int), rot_from_index(r), x, y as int)),
    {
        let piece = Piece::from_index(PIECE);
        let n = piece.canonical_rotations();
        let mut states = [Board([0u64; 10]); 4];
        proof {
            assert forall|r: int, x: int, y: u64| 0 <= r < 4 && 0 <= x < 10 && y < 64 implies
                !#[trigger] bit(states[r].0[x], y) by {
                lemma_bit_zero(y);
            }
        }
        let mut rot: usize = 0;
        while rot < n
            invariant
                rot <= n,
                n == canonical_rotations_spec(piece),
                n <= 4,
                piece == piece_from_index(PIECE as int),
                forall|r: int, x: int, y: u64| 0 <= r < 4 && 0 <= x < 10 && y < 64 ==>
                    #[trigger] bit(states[r].0[x], y) == (r < rot
                        && collides_spec(board, piece, rot_from_index(r), x, y as int)),
            decreases n - rot,
        {
            let d = extract_rot_data(piece, rot as u8);
            proof {
                lemma_piece_cells_bounded(piece, rot_from_index(rot as int));
            }
            let mut col = [0u64; 10];
            let mut x: usize = 0;
            while x < COLS
                invariant
                    x <= 10,
                    rot < 4,
                    d.cells@ == piece_cells_spec(piece, rot_from_index(rot as int)),
                    forall|i: int| 0 <= i < 4 ==> -2 <= (#[trigger] d.cells@[i]).0 <= 2 && -2 <= d.cells@[i].1 <= 2,
                    forall|i: int, y: u64| 0 <= i < 4 ==> #[trigger] bit(d.masks[i], y) == (y < 64 && y + d.cells[i].1 < 0),
                    forall|k: int, y: u64| 0 <= k < x && y < 64 ==>
                        #[trigger] bit(col[k], y) == collides_spec(board, piece, rot_from_index(rot as int), k, y as int),
                decreases 10 - x,
            {
                let v = rot_column(board, &d, x as i32);
                col[x] = v;
                x += 1;
            }
            states[rot] = Board(col);
            rot += 1;
        }
        CollisionMap(states)
    }

    /// Whether the piece in the given rotation would collide with the board
    /// if its center were at `(x, y)`.
    pub fn collides(&self, x: usize, y: usize, rot: Rotation) -> (r: bool)
        requires
            x < 10,
            y < 64,
        ensures
            r == bit(self.0[rot_index(rot)].0[x as int], y as u64),
    {
        let bits = self.0[rot.index()].0[x];
        let yy = y as u64;
        proof {
            lemma_bit_test(bits, yy);
        }
        bits & (1u64 << yy) != 0
    }

    /// Whether the piece in the given rotation does not collide.
    pub fn free(&self, x: usize, y: usize, rot: Rotation) -> (r: bool)
        requires
            x < 10,
            y < 64,
        ensures
            r == !bit(self.0[rot_index(rot)].0[x as int], y as u64),
    {
        !self.collides(x, y, rot)
    }

    /// Whether the piece in the given rotation is not "floating".
    pub fn landed(&self, x: usize, y: usize, rot: Rotation) -> (r: bool)
        requires
            x < 10,
            y < 64,
        ensures
            r == landed_bit(self.0[rot_index(rot)].0[x as int], y as u64),
    {
        let bits = self.0[rot.index()].0[x];
        let yy = y as u64;
        let mask = 1u64 << yy;
        proof {
            lemma_bit_test(bits, yy);
        }
        (bits & mask) == 0 && (y == 0 || (bits & (mask >> 1u64)) != 0)
    }

    /// Create a [`CollisionMap`] which only contains the landed states (rows
    /// `0..6`; bit 6 copies bit 5 and the rows above are clear).
    pub fn landable(self) -> (m: CollisionMap)
        ensures
            forall|r: int, x: int, y: u64| 0 <= r < 4 && 0 <= x < 10 ==>
                #[trigger] bit(m.0[r].0[x], y) == (if y < 6 {
                    landed_bit(self.0[r].0[x], y)
                } else if y == 6 {
                    bit(self.0[r].0[x], 5)
                } else {
                    false
                }),
    {
        let inner = crate::collision_map::CollisionMap(self.0).landable();
        CollisionMap(inner.0)
    }
}

} // verus!

verus! {

/// Four boards of lanes, one per rotation.
#[derive(Clone, Copy, Debug)]
pub struct SimdCollisionMap(pub [SimdBoard; 4]);

impl core::ops::Index<usize> for SimdCollisionMap {
    type Output = SimdBoard;

    /// The boards of rotation index `i`.
    fn index(&self, i: usize) -> (b: &SimdBoard)
        ensures
            *b == self.0[i as int],
    {
        &self.0[i]
    }
}

impl vstd::std_specs::core::IndexSpecImpl<usize> for SimdCollisionMap {
    open spec fn index_req(&self, index: &usize) -> bool {
        *index < 4
    }
}

impl SimdCollisionMap {
    /// The lanes of each rotation's board.
    pub fn from_collision_map(cm: &CollisionMap) -> (m: SimdCollisionMap)
        ensures
            forall|r: int| 0 <= r < 4 ==> #[trigger] m.0[r]@ == cm.0[r].0@ + seq![0u64, 0u64],
    {
        SimdCollisionMap([
            SimdBoard::from_board(cm.0[0]),
            SimdBoard::from_board(cm.0[1]),
            SimdBoard::from_board(cm.0[2]),
            SimdBoard::from_board(cm.0[3]),
        ])
    }

    /// The boards held by each rotation's lanes.
    pub fn to_collision_map(self) -> (cm: CollisionMap)
        ensures
            forall|r: int| 0 <= r < 4 ==> #[trigger] cm.0[r].0@ == self.0[r]@.subrange(0, 10),
    {
        CollisionMap([self.0[0].to_board(), self.0[1].to_board(), self.0[2].to_board(), self.0[3].to_board()])
    }

    /// In each column lane, keep the rows that are set while the row below
    /// is not (bit 0 counts as having a clear row below); the padding lanes
    /// become 0.
    pub fn landable(self) -> (m: SimdCollisionMap)
        ensures
            forall|r: int| 0 <= r < 4 ==> #[trigger] m.0[r]@ == Seq::new(12, |i: int| if i < 10 {
                self.0[r]@[i] & !(self.0[r]@[i] << 1u64)
            } else {
                0u64
            }),
    {
        let a = self.0[0].bitand(self.0[0].shift_up().not());
        let b = self.0[1].bitand(self.0[1].shift_up().not());
        let c = self.0[2].bitand(self.0[2].shift_up().not());
        let d = self.0[3].bitand(self.0[3].shift_up().not());
        let m = SimdCollisionMap([a, b, c, d]);
        proof {
            assert forall|r: int, i: int| 0 <= r < 4 && 0 <= i < 12 implies #[trigger] m.0[r]@[i] == if i < 10 {
                self.0[r]@[i] & !(self.0[r]@[i] << 1u64)
            } else {
                0u64
            } by {
                let v = self.0[r]@[i];
                lemma_bit_test(v, 0);
            }
            assert forall|r: int| 0 <= r < 4 implies #[trigger] m.0[r]@ == Seq::new(12, |i: int| if i < 10 {
                self.0[r]@[i] & !(self.0[r]@[i] << 1u64)
            } else {
                0u64
            }) by {
                crate::vector::lemma_lanes_len(m.0[r]);
                assert(m.0[r]@ =~= Seq::new(12, |i: int| if i < 10 {
                    self.0[r]@[i] & !(self.0[r]@[i] << 1u64)
                } else {
                    0u64
                }));
            }
        }
        m
    }
}

/// Applied to a map of free positions (the complement of a collision
/// column), `SimdCollisionMap::landable` marks exactly the landed rows that
/// `CollisionMap::landed` reports.
pub proof fn lemma_free_map_landable(c: u64, y: u64)
    requires
        y < 64,
    ensures
        bit((!c) & !((!c) << 1u64), y) == landed_bit(c, y),
{
    assert((((!c) & !((!c) << 1u64)) >> y) & 1 == 1
        <==> (!((c >> y) & 1 == 1) && (y == 0 || (c >> ((y - 1) as u64)) & 1 == 1))) by (bit_vector)
        requires y < 64;
}

} // verus!
