use vstd::prelude::*;
use crate::data::{piece_cells, piece_cells_spec, lemma_piece_cells_bounded};
use crate::piece::{Piece, piece_index, piece_from_index, is_canonical_spec, canonical_spec, lemma_canonical_rotation};
use crate::rotation::{Rotation, rot_index, rot_from_index};
use crate::spin::{Spin, spin_index};

verus! {

/// The spin state with rank `i` (`0..3`).
pub open spec fn spin_from_index(i: int) -> Spin {
    if i == 0 {
        Spin::NoSpin
    } else if i == 1 {
        Spin::Mini
    } else {
        Spin::Full
    }
}

/// Whether the piece `p` in rotation `r` with its pivot at `(x, y)` covers
/// the cell `(cx, cy)`.
pub open spec fn covers(p: Piece, r: Rotation, x: int, y: int, cx: int, cy: int) -> bool {
    let c = piece_cells_spec(p, r);
    ||| (x + c[0].0, y + c[0].1) == (cx, cy)
    ||| (x + c[1].0, y + c[1].1) == (cx, cy)
    ||| (x + c[2].0, y + c[2].1) == (cx, cy)
    ||| (x + c[3].0, y + c[3].1) == (cx, cy)
}

/// The pivot offset that `canonicalize` applies to a placement of `p` in
/// rotation `r`.
pub open spec fn canonical_offset(p: Piece, r: Rotation) -> (int, int) {
    match p {
        Piece::S | Piece::Z => match r {
            Rotation::South => (0, -1),
            Rotation::West => (-1, 0),
            _ => (0, 0),
        },
        Piece::I => match r {
            Rotation::South => (-1, 0),
            Rotation::West => (0, 1),
            _ => (0, 0),
        },
        Piece::O => match r {
            Rotation::East => (0, -1),
            Rotation::South => (-1, -1),
            Rotation::West => (-1, 0),
            _ => (0, 0),
        },
        _ => (0, 0),
    }
}

/// Moving the pivot by `canonical_offset` and turning to the canonical
/// rotation covers exactly the same cells.
pub proof fn lemma_canonical_congruent(p: Piece, r: Rotation, x: int, y: int, cx: int, cy: int)
    ensures
        covers(p, r, x, y, cx, cy) == covers(p, canonical_spec(p, r), x + canonical_offset(p, r).0,
            y + canonical_offset(p, r).1, cx, cy),
{
    match p {
        Piece::T => match r {
            Rotation::North => {},
            Rotation::East => {},
            Rotation::South => {},
            Rotation::West => {},
        },
        Piece::J => match r {
            Rotation::North => {},
            Rotation::East => {},
            Rotation::South => {},
            Rotation::West => {},
        },
        Piece::L => match r {
            Rotation::North => {},
            Rotation::East => {},
            Rotation::South => {},
            Rotation::West => {},
        },
        Piece::I => match r {
            Rotation::North => {},
            Rotation::East => {},
            Rotation::South => {},
            Rotation::West => {},
        },
        Piece::O => match r {
            Rotation::North => {},
            Rotation::East => {},
            Rotation::South => {},
            Rotation::West => {},
        },
        Piece::S => match r {
            Rotation::North => {},
            Rotation::East => {},
            Rotation::South => {},
            Rotation::West => {},
        },
        Piece::Z => match r {
            Rotation::North => {},
            Rotation::East => {},
            Rotation::South => {},
            Rotation::West => {},
        },
    }
}

/// A placement of `p` in rotation `r` at `(x, y)` covers no negative
/// coordinate.
pub open spec fn covers_nonneg(p: Piece, r: Rotation, x: int, y: int) -> bool {
    let c = piece_cells_spec(p, r);
    &&& x + c[0].0 >= 0 && y + c[0].1 >= 0
    &&& x + c[1].0 >= 0 && y + c[1].1 >= 0
    &&& x + c[2].0 >= 0 && y + c[2].1 >= 0
    &&& x + c[3].0 >= 0 && y + c[3].1 >= 0
}

/// Canonicalising keeps the covered cells non-negative.
pub proof fn lemma_canonical_nonneg(p: Piece, r: Rotation, x: int, y: int)
    requires
        covers_nonneg(p, r, x, y),
    ensures
        covers_nonneg(p, canonical_spec(p, r), x + canonical_offset(p, r).0, y + canonical_offset(p, r).1),
        x + canonical_offset(p, r).0 >= 0,
        y + canonical_offset(p, r).1 >= 0,
{
    match p {
        Piece::T => match r {
            Rotation::North => {},
            Rotation::East => {},
            Rotation::South => {},
            Rotation::West => {},
        },
        Piece::J => match r {
            Rotation::North => {},
            Rotation::East => {},
            Rotation::South => {},
            Rotation::West => {},
        },
        Piece::L => match r {
            Rotation::North => {},
            Rotation::East => {},
            Rotation::South => {},
            Rotation::West => {},
        },
        Piece::I => match r {
            Rotation::North => {},
            Rotation::East => {},
            Rotation::South => {},
            Rotation::West => {},
        },
        Piece::O => match r {
            Rotation::North => {},
            Rotation::East => {},
            Rotation::South => {},
            Rotation::West => {},
        },
        Piece::S => match r {
            Rotation::North => {},
            Rotation::East => {},
            Rotation::South => {},
            Rotation::West => {},
        },
        Piece::Z => match r {
            Rotation::North => {},
            Rotation::East => {},
            Rotation::South => {},
            Rotation::West => {},
        },
    }
}

/// A piece placement.
///
/// `x` spans `0..10` (4 bits) whilst `y` spans `0..6` (3 bits). `rot` spans
/// `0..4` (2 bits), `piece` spans `0..7` (3 bits) and `spin` spans `0..3`
/// (2 bits), stored with the bit layout `00 XXXX YYY RR PPP SS`.
#[derive(Clone, Copy, PartialEq, Eq, Debug, Structural)]
pub struct Move(u16);

impl Move {
    /// The packed bits.
    pub closed spec fn bits(self) -> u16 {
        self.0
    }

    /// The `x` field.
    pub closed spec fn x_spec(self) -> int {
        ((self.0 >> 10u16) & 0xf) as int
    }

    /// The `y` field.
    pub closed spec fn y_spec(self) -> int {
        ((self.0 >> 7u16) & 0x7) as int
    }

    /// The rotation field.
    pub closed spec fn rot_spec(self) -> Rotation {
        rot_from_index(((self.0 >> 5u16) & 0x3) as int)
    }

    /// The raw piece field (`7` is no piece).
    pub closed spec fn piece_bits(self) -> int {
        ((self.0 >> 2u16) & 0x7) as int
    }

    /// The raw spin field (`3` is no spin state).
    pub closed spec fn spin_bits(self) -> int {
        (self.0 & 0x3) as int
    }

    /// The piece field.
    pub open spec fn piece_spec(self) -> Piece {
        piece_from_index(self.piece_bits())
    }

    /// The spin field.
    pub open spec fn spin_spec(self) -> Spin {
        spin_from_index(self.spin_bits())
    }

    /// Whether the piece and spin fields name a piece and a spin state.
    pub open spec fn is_valid(self) -> bool {
        self.piece_bits() < 7 && self.spin_bits() < 3
    }

    /// The placement with the given parts, as `Move::new` packs it.
    pub closed spec fn pack(x: int, y: int, rot: Rotation, piece: Piece, spin: Spin) -> Move {
        Move(
            ((x as u16) << 10u16) | ((y as u16) << 7u16) | ((rot_index(rot) as u16) << 5u16)
                | ((piece_index(piece) as u16) << 2u16) | (spin_index(spin) as u16),
        )
    }

    /// The ranges of the packed fields.
    proof fn lemma_field_bounds(v: u16)
        by (bit_vector)
        ensures
            (v >> 10u16) & 0xf < 16,
            (v >> 7u16) & 0x7 < 8,
            (v >> 5u16) & 0x3 < 4,
            (0xffffu16 >> 2u16) & 7 == 7,
            (0xffffu16 >> 10u16) & 0xf == 15,
            (0xffffu16 >> 7u16) & 0x7 == 7,
            (0xffffu16 >> 5u16) & 0x3 == 3,
            0xffffu16 & 0x3 == 3,
    {
    }

    /// The ranges of the pivot fields of `m`.
    pub proof fn lemma_field_bounds_of(m: Move)
        ensures
            0 <= m.x_spec() < 16,
            0 <= m.y_spec() < 8,
    {
        Move::lemma_field_bounds(m.0);
    }

    /// The fields of a packed placement read back as packed.
    pub proof fn lemma_pack(x: int, y: int, rot: Rotation, piece: Piece, spin: Spin)
        requires
            0 <= x < 10,
            0 <= y < 6,
        ensures
            Move::pack(x, y, rot, piece, spin).x_spec() == x,
            Move::pack(x, y, rot, piece, spin).y_spec() == y,
            Move::pack(x, y, rot, piece, spin).rot_spec() == rot,
            Move::pack(x, y, rot, piece, spin).piece_spec() == piece,
            Move::pack(x, y, rot, piece, spin).spin_spec() == spin,
            Move::pack(x, y, rot, piece, spin).is_valid(),
    {
        let xx = x as u16;
        let yy = y as u16;
        let r = rot_index(rot) as u16;
        let p = piece_index(piece) as u16;
        let s = spin_index(spin) as u16;
        let v = (xx << 10u16) | (yy << 7u16) | (r << 5u16) | (p << 2u16) | s;
        assert((v >> 10u16) & 0xf == xx && (v >> 7u16) & 0x7 == yy && (v >> 5u16) & 0x3 == r
            && (v >> 2u16) & 0x7 == p && v & 0x3 == s) by (bit_vector)
            requires
                xx < 10, yy < 6, r < 4, p < 7, s < 3,
                v == (xx << 10u16) | (yy << 7u16) | (r << 5u16) | (p << 2u16) | s,
        ;
        assert(Move::pack(x, y, rot, piece, spin).0 == v);
    }

    /// The placement at `(x, y)` in rotation `rot` with spin `spin`, covering
    /// cell `i` of `piece`: `(x + dx_i, y + dy_i)`.
    pub open spec fn cell_at(self, i: int) -> (int, int) {
        (
            self.x_spec() + piece_cells_spec(self.piece_spec(), self.rot_spec())[i].0,
            self.y_spec() + piece_cells_spec(self.piece_spec(), self.rot_spec())[i].1,
        )
    }

    /// Whether the placement covers the cell `(cx, cy)`.
    pub open spec fn occupies(self, cx: int, cy: int) -> bool {
        ||| self.cell_at(0) == (cx, cy)
        ||| self.cell_at(1) == (cx, cy)
        ||| self.cell_at(2) == (cx, cy)
        ||| self.cell_at(3) == (cx, cy)
    }

    /// The placement congruent to this one whose rotation is canonical: the
    /// placement itself when its rotation is canonical, otherwise the pivot
    /// moved by `canonical_offset` in the canonical rotation.
    pub open spec fn canonical_move(self) -> Move {
        if is_canonical_spec(self.piece_spec(), self.rot_spec()) {
            self
        } else {
            Move::pack(
                self.x_spec() + canonical_offset(self.piece_spec(), self.rot_spec()).0,
                self.y_spec() + canonical_offset(self.piece_spec(), self.rot_spec()).1,
                canonical_spec(self.piece_spec(), self.rot_spec()),
                self.piece_spec(),
                self.spin_spec(),
            )
        }
    }

    /// Whether this is a placement as `Move::new` builds one, with every
    /// covered cell at non-negative coordinates and a canonical pivot row
    /// below 6.
    pub open spec fn is_placement(self) -> bool {
        &&& self.is_valid()
        &&& self.cells_nonneg()
        &&& self.x_spec() < 10
        &&& self.y_spec() < 6
        &&& self.y_spec() + canonical_offset(self.piece_spec(), self.rot_spec()).1 < 6
    }

    /// Whether this is a valid placement whose four cells all lie in the
    /// columns `0..10` and the rows `0..20`.
    pub open spec fn on_board(self) -> bool {
        &&& self.is_valid()
        &&& forall|i: int| 0 <= i < 4 ==> 0 <= (#[trigger] self.cell_at(i)).0 < 10
            && 0 <= self.cell_at(i).1 < 20
    }

    /// The placement with the given packed bits.
    pub closed spec fn from_bits(k: u16) -> Move {
        Move(k)
    }

    /// A placement is determined by its packed bits.
    pub proof fn lemma_bits(m: Move, k: u16)
        ensures
            Move::from_bits(m.bits()) == m,
            Move::from_bits(k).bits() == k,
    {
    }

    /// Whether every covered cell has non-negative coordinates.
    pub open spec fn cells_nonneg(self) -> bool {
        forall|i: int| 0 <= i < 4 ==> (#[trigger] self.cell_at(i)).0 >= 0 && self.cell_at(i).1 >= 0
    }

    /// A null move. This is guaranteed to be invalid and takes the value `0xFFFF`.
    pub fn null() -> (m: Move)
        ensures
            m.bits() == 0xffff,
            !m.is_valid(),
            m.x_spec() == 15,
            m.y_spec() == 7,
            m.rot_spec() == Rotation::West,
            m.piece_bits() == 7,
            m.spin_bits() == 3,
    {
        let m = Move(0xFFFF);
        proof {
            Move::lemma_field_bounds(0xffff);
        }
        m
    }

    /// Create a [`Move`] from its parts.
    pub fn new(x: usize, y: usize, rot: Rotation, piece: Piece, spin: Spin) -> (m: Move)
        requires
            x < 10,
            y < 6,
        ensures
            m == Move::pack(x as int, y as int, rot, piece, spin),
            m.x_spec() == x,
            m.y_spec() == y,
            m.rot_spec() == rot,
            m.piece_spec() == piece,
            m.spin_spec() == spin,
            m.is_valid(),
    {
        let r = rot.index() as u16;
        let p = piece.index() as u16;
        let s: u16 = match spin {
            Spin::NoSpin => 0,
            Spin::Mini => 1,
            Spin::Full => 2,
        };
        let v = ((x as u16) << 10u16) | ((y as u16) << 7u16) | (r << 5u16) | (p << 2u16) | s;
        proof {
            Move::lemma_pack(x as int, y as int, rot, piece, spin);
        }
        Move(v)
    }

    /// The `x`-coordinate.
    pub fn x(self) -> (r: usize)
        ensures
            r == self.x_spec(),
    {
        ((self.0 >> 10u16) & 0xf) as usize
    }

    /// The `y`-coordinate.
    pub fn y(self) -> (r: usize)
        ensures
            r == self.y_spec(),
    {
        ((self.0 >> 7u16) & 0x7) as usize
    }

    /// The rotation of the move.
    pub fn rot(self) -> (r: Rotation)
        ensures
            r == self.rot_spec(),
    {
        let v = self.0;
        let b = (v >> 5u16) & 0x3;
        if b == 0 {
            Rotation::North
        } else if b == 1 {
            Rotation::East
        } else if b == 2 {
            Rotation::South
        } else {
            proof {
                Move::lemma_field_bounds(v);
            }
            Rotation::West
        }
    }

    /// The piece this move is done with.
    pub fn piece(self) -> (r: Piece)
        requires
            self.piece_bits() < 7,
        ensures
            r == self.piece_spec(),
    {
        let b = (self.0 >> 2u16) & 0x7;
        Piece::from_index(b as u8)
    }

    /// The spin state of the move.
    pub fn spin(self) -> (r: Spin)
        requires
            self.spin_bits() < 3,
        ensures
            r == self.spin_spec(),
    {
        let b = self.0 & 0x3;
        if b == 0 {
            Spin::NoSpin
        } else if b == 1 {
            Spin::Mini
        } else {
            Spin::Full
        }
    }

    /// The cells this placement takes up.
    pub fn cells(self) -> (c: [(u8, u8); 4])
        requires
            self.is_valid(),
            self.cells_nonneg(),
        ensures
            forall|i: int| 0 <= i < 4 ==> (#[trigger] c@[i]).0 == self.cell_at(i).0 && c@[i].1 == self.cell_at(i).1,
    {
        let x = self.x();
        let y = self.y();
        let v = self.0;
        let offsets = piece_cells(self.piece(), self.rot());
        proof {
            lemma_piece_cells_bounded(self.piece_spec(), self.rot_spec());
            Move::lemma_field_bounds(v);
        }
        let mut out = [(0u8, 0u8); 4];
        let mut i: usize = 0;
        while i < 4
            invariant
                i <= 4,
                x == self.x_spec(),
                y == self.y_spec(),
                x < 16,
                y < 8,
                offsets@ == piece_cells_spec(self.piece_spec(), self.rot_spec()),
                self.cells_nonneg(),
                forall|k: int| 0 <= k < 4 ==> -2 <= (#[trigger] offsets@[k]).0 <= 2 && -2 <= offsets@[k].1 <= 2,
                forall|k: int| 0 <= k < i ==> (#[trigger] out@[k]).0 == self.cell_at(k).0 && out@[k].1 == self.cell_at(k).1,
            decreases 4 - i,
        {
            let (dx, dy) = offsets[i];
            assert(self.cell_at(i as int).0 >= 0 && self.cell_at(i as int).1 >= 0);
            let cx = (x as i16 + dx as i16) as u8;
            let cy = (y as i16 + dy as i16) as u8;
            out[i] = (cx, cy);
            i += 1;
        }
        out
    }

    /// Whether the piece and spin fields hold a piece and a spin state.
    pub fn valid(self) -> (r: bool)
        ensures
            r == self.is_valid(),
    {
        (self.0 >> 2u16) & 0x7 < 7 && self.0 & 0x3 < 3
    }

    /// Whether the placement is valid and its cells lie on the board.
    pub fn is_on_board(self) -> (r: bool)
        ensures
            r == self.on_board(),
    {
        let v = self.0;
        if (v >> 2u16) & 0x7 >= 7 || v & 0x3 >= 3 {
            return false;
        }
        let x = self.x();
        let y = self.y();
        let offsets = piece_cells(self.piece(), self.rot());
        proof {
            lemma_piece_cells_bounded(self.piece_spec(), self.rot_spec());
            Move::lemma_field_bounds(v);
        }
        let mut i: usize = 0;
        while i < 4
            invariant
                i <= 4,
                self.is_valid(),
                x == self.x_spec(),
                y == self.y_spec(),
                x < 16,
                y < 8,
                offsets@ == piece_cells_spec(self.piece_spec(), self.rot_spec()),
                forall|k: int| 0 <= k < 4 ==> -2 <= (#[trigger] offsets@[k]).0 <= 2 && -2 <= offsets@[k].1 <= 2,
                forall|k: int| 0 <= k < i ==> 0 <= (#[trigger] self.cell_at(k)).0 < 10 && 0 <= self.cell_at(k).1 < 20,
            decreases 4 - i,
        {
            let (dx, dy) = offsets[i];
            let cx = x as i16 + dx as i16;
            let cy = y as i16 + dy as i16;
            assert(self.cell_at(i as int) == (cx as int, cy as int));
            if cx < 0 || cx >= 10 || cy < 0 || cy >= 20 {
                return false;
            }
            i += 1;
        }
        true
    }

    /// True if the move's rotation is the earliest congruent for its piece.
    pub fn is_canonical(self) -> (r: bool)
        requires
            self.piece_bits() < 7,
        ensures
            r == is_canonical_spec(self.piece_spec(), self.rot_spec()),
    {
        self.piece().is_canonical(self.rot())
    }

    /// Returns a move which is congruent to this one (it covers the same
    /// cells), canonicalizing the rotation and moving the center.
    #[verifier::spinoff_prover]
    #[verifier::rlimit(30)]
    pub fn canonicalize(self) -> (r: Move)
        requires
            self.is_valid(),
            !is_canonical_spec(self.piece_spec(), self.rot_spec()) ==> {
                &&& 0 <= self.x_spec() + canonical_offset(self.piece_spec(), self.rot_spec()).0 < 10
                &&& 0 <= self.y_spec() + canonical_offset(self.piece_spec(), self.rot_spec()).1 < 6
            },
        ensures
            r == self.canonical_move(),
            r.rot_spec() == canonical_spec(self.piece_spec(), self.rot_spec()),
            forall|cx: int, cy: int| #[trigger] r.occupies(cx, cy) == self.occupies(cx, cy),
            self.is_placement() ==> r.is_placement(),
    {
        let piece = self.piece();
        let rot = self.rot();
        let x = self.x();
        let y = self.y();
        let spin = self.spin();
        let v = self.0;
        proof {
            lemma_piece_cells_bounded(piece, rot);
            Move::lemma_field_bounds(v);
            lemma_canonical_rotation(piece, rot);
        }
        let r = match piece {
            Piece::T | Piece::J | Piece::L => self,
            Piece::S | Piece::Z => match rot {
                Rotation::South => Move::new(x, y - 1, Rotation::North, piece, spin),
                Rotation::West => Move::new(x - 1, y, Rotation::East, piece, spin),
                _ => self,
            },
            Piece::I => match rot {
                Rotation::South => Move::new(x - 1, y, Rotation::North, piece, spin),
                Rotation::West => Move::new(x, y + 1, Rotation::East, piece, spin),
                _ => self,
            },
            Piece::O => match rot {
                Rotation::East => Move::new(x, y - 1, Rotation::North, piece, spin),
                Rotation::South => Move::new(x - 1, y - 1, Rotation::North, piece, spin),
                Rotation::West => Move::new(x - 1, y, Rotation::North, piece, spin),
                _ => self,
            },
        };
        proof {
            assert(r.x_spec() == x + canonical_offset(piece, rot).0);
            assert(r.y_spec() == y + canonical_offset(piece, rot).1);
            assert forall|cx: int, cy: int| #[trigger] r.occupies(cx, cy) == self.occupies(cx, cy) by {
                lemma_canonical_congruent(piece, rot, x as int, y as int, cx, cy);
                assert(r.occupies(cx, cy) == covers(piece, r.rot_spec(), r.x_spec(), r.y_spec(), cx, cy));
                assert(self.occupies(cx, cy) == covers(piece, rot, x as int, y as int, cx, cy));
            }
            if self.is_placement() {
                assert(self.cell_at(0).0 >= 0 && self.cell_at(1).0 >= 0 && self.cell_at(2).0 >= 0 && self.cell_at(3).0 >= 0);
                assert(self.cell_at(0).1 >= 0 && self.cell_at(1).1 >= 0 && self.cell_at(2).1 >= 0 && self.cell_at(3).1 >= 0);
                assert(covers_nonneg(piece, rot, x as int, y as int));
                lemma_canonical_nonneg(piece, rot, x as int, y as int);
                assert(covers_nonneg(piece, r.rot_spec(), r.x_spec(), r.y_spec()));
                assert(r.cell_at(0).0 >= 0 && r.cell_at(1).0 >= 0 && r.cell_at(2).0 >= 0 && r.cell_at(3).0 >= 0);
                assert(canonical_offset(piece, r.rot_spec()) == (0int, 0int));
            }
        }
        r
    }
}

} // verus!

verus! {

/// A placement can be canonicalized: its canonical pivot lies in the field.
pub proof fn lemma_placement_canonicalizable(m: Move)
    requires
        m.is_placement(),
    ensures
        m.is_valid(),
        !is_canonical_spec(m.piece_spec(), m.rot_spec()) ==> {
            &&& 0 <= m.x_spec() + canonical_offset(m.piece_spec(), m.rot_spec()).0 < 10
            &&& 0 <= m.y_spec() + canonical_offset(m.piece_spec(), m.rot_spec()).1 < 6
        },
{
    let p = m.piece_spec();
    let r = m.rot_spec();
    lemma_piece_cells_bounded(p, r);
    assert(m.cell_at(0).0 >= 0 && m.cell_at(1).0 >= 0 && m.cell_at(2).0 >= 0 && m.cell_at(3).0 >= 0);
    assert(m.cell_at(0).1 >= 0 && m.cell_at(1).1 >= 0 && m.cell_at(2).1 >= 0 && m.cell_at(3).1 >= 0);
    assert(covers_nonneg(p, r, m.x_spec(), m.y_spec()));
    lemma_canonical_nonneg(p, r, m.x_spec(), m.y_spec());
}

/// Canonicalising a placement keeps the cells it covers, yields a canonical
/// rotation, is the identity exactly on canonical placements, and doing it
/// twice is the same as doing it once.
pub proof fn lemma_canonical_move(m: Move)
    requires
        m.is_placement(),
    ensures
        forall|cx: int, cy: int| #[trigger] m.canonical_move().occupies(cx, cy) == m.occupies(cx, cy),
        is_canonical_spec(m.canonical_move().piece_spec(), m.canonical_move().rot_spec()),
        m.canonical_move().piece_spec() == m.piece_spec(),
        m.canonical_move().spin_spec() == m.spin_spec(),
        m.canonical_move().is_placement(),
        m.canonical_move().canonical_move() == m.canonical_move(),
        is_canonical_spec(m.piece_spec(), m.rot_spec()) <==> m.canonical_move() == m,
{
    let p = m.piece_spec();
    let r = m.rot_spec();
    lemma_canonical_rotation(p, r);
    lemma_piece_cells_bounded(p, r);
    if !is_canonical_spec(p, r) {
        let c = m.canonical_move();
        assert(m.cell_at(0).0 >= 0 && m.cell_at(1).0 >= 0 && m.cell_at(2).0 >= 0 && m.cell_at(3).0 >= 0);
        assert(m.cell_at(0).1 >= 0 && m.cell_at(1).1 >= 0 && m.cell_at(2).1 >= 0 && m.cell_at(3).1 >= 0);
        assert(covers_nonneg(p, r, m.x_spec(), m.y_spec()));
        lemma_canonical_nonneg(p, r, m.x_spec(), m.y_spec());
        Move::lemma_pack(m.x_spec() + canonical_offset(p, r).0, m.y_spec() + canonical_offset(p, r).1,
            canonical_spec(p, r), p, m.spin_spec());
        assert forall|cx: int, cy: int| #[trigger] c.occupies(cx, cy) == m.occupies(cx, cy) by {
            lemma_canonical_congruent(p, r, m.x_spec(), m.y_spec(), cx, cy);
        }
        assert(canonical_offset(p, c.rot_spec()) == (0int, 0int));
        assert(c.cell_at(0).0 >= 0 && c.cell_at(1).0 >= 0 && c.cell_at(2).0 >= 0 && c.cell_at(3).0 >= 0);
        assert(c.cell_at(0).1 >= 0 && c.cell_at(1).1 >= 0 && c.cell_at(2).1 >= 0 && c.cell_at(3).1 >= 0);
        assert(c.rot_spec() != r);
    }
}

} // verus!
