use vstd::prelude::*;
use crate::board::Board;
use crate::data::{piece_cells, piece_cells_spec, lemma_piece_cells_bounded};
use crate::header::{
    COLS, COL_MASK, bit, lemma_bit_and, lemma_bit_col_mask, lemma_bit_high, lemma_bit_low_ones,
    lemma_bit_not, lemma_bit_ones, lemma_bit_or, lemma_bit_shl, lemma_bit_shr, lemma_bit_single,
    lemma_bit_test, lemma_bit_zero,
};
use crate::piece::Piece;
use crate::rotation::{Rotation, rot_index, rot_from_index};

verus! {

/// Whether the cell `(cx, cy)` blocks a piece: the floor (`cy < 0`), the
/// walls (`cx` outside `0..10`) and filled cells are solid; rows from 64
/// upwards are open.
pub open spec fn solid(b: Board, cx: int, cy: int) -> bool {
    cy < 0 || (cy < 64 && (cx < 0 || cx >= 10 || b.cell(cx, cy)))
}

/// Whether `p` in rotation `r` with its pivot at `(x, y)` overlaps a solid
/// cell of `b`.
pub open spec fn collides_spec(b: Board, p: Piece, r: Rotation, x: int, y: int) -> bool {
    let c = piece_cells_spec(p, r);
    ||| solid(b, x + c[0].0, y + c[0].1)
    ||| solid(b, x + c[1].0, y + c[1].1)
    ||| solid(b, x + c[2].0, y + c[2].1)
    ||| solid(b, x + c[3].0, y + c[3].1)
}

/// Whether bit `y` of a collision column marks a landed position: free at
/// `y`, and blocked at `y - 1` or resting on the floor.
pub open spec fn landed_bit(bits: u64, y: u64) -> bool {
    !bit(bits, y) && (y == 0 || bit(bits, (y - 1) as u64))
}

/// Mapping from `(rotation, column)` to a bitmask of rows that collide with
/// the piece in that rotation when placed at that column.
#[derive(Clone, Copy, Debug, PartialEq, Eq)]
pub struct CollisionMap(pub [Board; 4]);

/// Column `cx` of the board, or a solid wall outside the board.
fn column_or_wall(board: Board, cx: i32) -> (c: u64)
    ensures
        forall|cy: u64| cy < 64 ==> #[trigger] bit(c, cy) == solid(board, cx as int, cy as int),
{
    if 0 <= cx && cx < 10 {
        board.0[cx as usize]
    } else {
        proof {
            assert forall|cy: u64| cy < 64 implies #[trigger] bit(u64::MAX, cy) == solid(board, cx as int, cy as int) by {
                lemma_bit_ones(cy);
            }
        }
        u64::MAX
    }
}

/// Column `c` seen from a mino `dy` rows above the pivot: bit `y` is bit
/// `y + dy` of `c`, with the rows below the floor solid.
fn offset_column(c: u64, dy: i8) -> (r: u64)
    requires
        -2 <= dy <= 2,
    ensures
        forall|y: u64| y < 64 ==> #[trigger] bit(r, y) == (y + dy < 0 || (y + dy < 64 && bit(c, (y + dy) as u64))),
{
    if dy >= 0 {
        let s = dy as u64;
        let r = c >> s;
        proof {
            assert forall|y: u64| y < 64 implies #[trigger] bit(r, y) == (y + dy < 0 || (y + dy < 64 && bit(c, (y + dy) as u64))) by {
                lemma_bit_shr(c, s, y);
            }
        }
        r
    } else {
        let s = (-dy) as u64;
        proof {
            lemma_bit_low_ones(s, 0);
        }
        let r = (c << s) | ((1u64 << s) - 1);
        proof {
            assert forall|y: u64| y < 64 implies #[trigger] bit(r, y) == (y + dy < 0 || (y + dy < 64 && bit(c, (y + dy) as u64))) by {
                lemma_bit_low_ones(s, y);
                lemma_bit_or(c << s, ((1u64 << s) - 1) as u64, y);
                lemma_bit_shl(c, s, y);
            }
        }
        r
    }
}

impl CollisionMap {
    /// Construct a collision map for the given board and piece: bit `y` of
    /// column `x` in rotation `r` is set exactly when the piece, in rotation
    /// `r` with its pivot at `(x, y)`, overlaps the floor, a wall or a filled
    /// cell.
    pub fn new(board: Board, piece: Piece) -> (m: CollisionMap)
        ensures
            forall|r: int, x: int, y: u64| 0 <= r < 4 && 0 <= x < 10 && y < 64 ==>
                #[trigger] bit(m.0[r].0[x], y) == collides_spec(board, piece, rot_from_index(r), x, y as int),
    {
        let mut states = [Board([0u64; 10]); 4];
        let mut rot: usize = 0;
        while rot < 4
            invariant
                rot <= 4,
                forall|r: int, x: int, y: u64| 0 <= r < rot && 0 <= x < 10 && y < 64 ==>
                    #[trigger] bit(states[r].0[x], y) == collides_spec(board, piece, rot_from_index(r), x, y as int),
            decreases 4 - rot,
        {
            let r = Rotation::from(rot as u8);
            proof {
                assert(rot as u8 as int == rot as int);
            }
            let cells = piece_cells(piece, r);
            proof {
                lemma_piece_cells_bounded(piece, r);
            }
            let (dx0, dy0) = cells[0];
            let (dx1, dy1) = cells[1];
            let (dx2, dy2) = cells[2];
            let (dx3, dy3) = cells[3];
            let mut col = [0u64; 10];
            let mut x: usize = 0;
            while x < COLS
                invariant
                    x <= 10,
                    rot < 4,
                    r == rot_from_index(rot as int),
                    cells@ == piece_cells_spec(piece, r),
                    (dx0, dy0) == cells@[0],
                    (dx1, dy1) == cells@[1],
                    (dx2, dy2) == cells@[2],
                    (dx3, dy3) == cells@[3],
                    -2 <= dx0 <= 2 && -2 <= dy0 <= 2,
                    -2 <= dx1 <= 2 && -2 <= dy1 <= 2,
                    -2 <= dx2 <= 2 && -2 <= dy2 <= 2,
                    -2 <= dx3 <= 2 && -2 <= dy3 <= 2,
                    forall|k: int, y: u64| 0 <= k < x && y < 64 ==>
                        #[trigger] bit(col[k], y) == collides_spec(board, piece, r, k, y as int),
                decreases 10 - x,
            {
                let xi = x as i32;
                let c0 = offset_column(column_or_wall(board, xi + dx0 as i32), dy0);
                let c1 = offset_column(column_or_wall(board, xi + dx1 as i32), dy1);
                let c2 = offset_column(column_or_wall(board, xi + dx2 as i32), dy2);
                let c3 = offset_column(column_or_wall(board, xi + dx3 as i32), dy3);
                let v = c0 | c1 | c2 | c3;
                proof {
                    assert forall|y: u64| y < 64 implies #[trigger] bit(v, y) == collides_spec(board, piece, r, x as int, y as int) by {
                        lemma_bit_or(c0 | c1 | c2, c3, y);
                        lemma_bit_or(c0 | c1, c2, y);
                        lemma_bit_or(c0, c1, y);
                    }
                }
                col[x] = v;
                x += 1;
            }
            states[rot] = Board(col);
            rot += 1;
        }
        CollisionMap(states)
    }

    /// Whether the piece in the given rotation would collide with the board
    /// if its center were at `(x, y)`.
    pub fn collides(&self, x: usize, y: usize, rot: Rotation) -> (r: bool)
        requires
            x < 10,
            y < 64,
        ensures
            r == bit(self.0[rot_index(rot)].0[x as int], y as u64),
    {
        let bits = self.0[rot.index()].0[x];
        let yy = y as u64;
        proof {
            lemma_bit_test(bits, yy);
        }
        bits & (1u64 << yy) != 0
    }

    /// Whether the piece in the given rotation does not collide.
    pub fn free(&self, x: usize, y: usize, rot: Rotation) -> (r: bool)
        requires
            x < 10,
            y < 64,
        ensures
            r == !bit(self.0[rot_index(rot)].0[x as int], y as u64),
    {
        !self.collides(x, y, rot)
    }

    /// Whether the piece in the given rotation is not "floating": it is free
    /// at `(x, y)` and either on the floor or blocked one row below.
    pub fn landed(&self, x: usize, y: usize, rot: Rotation) -> (r: bool)
        requires
            x < 10,
            y < 64,
        ensures
            r == landed_bit(self.0[rot_index(rot)].0[x as int], y as u64),
    {
        let bits = self.0[rot.index()].0[x];
        let yy = y as u64;
        let mask = 1u64 << yy;
        proof {
            lemma_bit_test(bits, yy);
        }
        (bits & mask) == 0 && (y == 0 || (bits & (mask >> 1u64)) != 0)
    }

    /// Create a [`CollisionMap`] which only contains the landed states: in
    /// the result, bit `y` of a column (for rows `0..6`) is set exactly when
    /// the position is landed in `self`; bit 6 copies bit 5 of `self`, and
    /// the rows above are clear.
    pub fn landable(self) -> (m: CollisionMap)
        ensures
            forall|r: int, x: int, y: u64| 0 <= r < 4 && 0 <= x < 10 ==>
                #[trigger] bit(m.0[r].0[x], y) == (if y < 6 {
                    landed_bit(self.0[r].0[x], y)
                } else if y == 6 {
                    bit(self.0[r].0[x], 5)
                } else {
                    false
                }),
    {
        let mut out = self;
        let mut r: usize = 0;
        while r < 4
            invariant
                r <= 4,
                forall|k: int| r <= k < 4 ==> #[trigger] out.0[k] == self.0[k],
                forall|k: int, x: int, y: u64| 0 <= k < r && 0 <= x < 10 ==>
                    #[trigger] bit(out.0[k].0[x], y) == (if y < 6 {
                        landed_bit(self.0[k].0[x], y)
                    } else if y == 6 {
                        bit(self.0[k].0[x], 5)
                    } else {
                        false
                    }),
            decreases 4 - r,
        {
            let mut board = out.0[r];
            let mut x: usize = 0;
            while x < COLS
                invariant
                    x <= 10,
                    r < 4,
                    out.0[r as int] == self.0[r as int],
                    forall|k: int| x <= k < 10 ==> #[trigger] board.0[k] == self.0[r as int].0[k],
                    forall|k: int, y: u64| 0 <= k < x ==>
                        #[trigger] bit(board.0[k], y) == (if y < 6 {
                            landed_bit(self.0[r as int].0[k], y)
                        } else if y == 6 {
                            bit(self.0[r as int].0[k], 5)
                        } else {
                            false
                        }),
                decreases 10 - x,
            {
                let c = board.0[x];
                let bits = c & COL_MASK;
                let v = (!bits) & ((bits << 1u64) | 1);
                proof {
                    assert forall|y: u64| #[trigger] bit(v, y) == (if y < 6 {
                        landed_bit(c, y)
                    } else if y == 6 {
                        bit(c, 5)
                    } else {
                        false
                    }) by {
                        assert(((((!(c & 0x3fu64)) & (((c & 0x3fu64) << 1u64) | 1)) >> y) & 1 == 1) == (if y < 6 {
                            !((c >> y) & 1 == 1) && (y == 0 || (c >> ((y - 1) as u64)) & 1 == 1)
                        } else if y == 6 {
                            (c >> 5u64) & 1 == 1
                        } else {
                            false
                        })) by (bit_vector);
                    }
                }
                board.0[x] = v;
                x += 1;
            }
            out.0[r] = board;
            r += 1;
        }
        out
    }
}

} // verus!
