use vstd::prelude::*;
use crate::rotation::{Rotation, rot_index, rot_from_index};

verus! {

/// A singular piece type.
#[derive(Clone, Copy, PartialEq, Eq, Debug, Structural)]
pub enum Piece {
    T,
    I,
    J,
    L,
    O,
    S,
    Z,
}

/// The number of piece types.
pub const PIECES: usize = 7;

/// The index `0..7` of a piece.
pub open spec fn piece_index(p: Piece) -> int {
    match p {
        Piece::T => 0,
        Piece::I => 1,
        Piece::J => 2,
        Piece::L => 3,
        Piece::O => 4,
        Piece::S => 5,
        Piece::Z => 6,
    }
}

/// The piece with index `i`, for `0 <= i < 7`.
pub open spec fn piece_from_index(i: int) -> Piece {
    if i == 0 {
        Piece::T
    } else if i == 1 {
        Piece::I
    } else if i == 2 {
        Piece::J
    } else if i == 3 {
        Piece::L
    } else if i == 4 {
        Piece::O
    } else if i == 5 {
        Piece::S
    } else {
        Piece::Z
    }
}

/// The canonical rotation of `p` congruent to `r`: I, S and Z only keep
/// North and East, O only keeps North, T, J and L keep all four.
pub open spec fn canonical_spec(p: Piece, r: Rotation) -> Rotation {
    match p {
        Piece::I | Piece::S | Piece::Z => rot_from_index(rot_index(r) % 2),
        Piece::O => Rotation::North,
        Piece::T | Piece::J | Piece::L => r,
    }
}

/// Whether `r` is a canonical rotation of `p`.
pub open spec fn is_canonical_spec(p: Piece, r: Rotation) -> bool {
    match p {
        Piece::I | Piece::S | Piece::Z => r == Rotation::North || r == Rotation::East,
        Piece::O => r == Rotation::North,
        Piece::T | Piece::J | Piece::L => true,
    }
}

/// The number of canonical rotations of `p`.
pub open spec fn canonical_rotations_spec(p: Piece) -> int {
    match p {
        Piece::I | Piece::S | Piece::Z => 2,
        Piece::O => 1,
        Piece::T | Piece::J | Piece::L => 4,
    }
}

impl Piece {
    /// The index `0..7` of this piece.
    pub fn index(self) -> (r: usize)
        ensures
            r == piece_index(self),
            r < 7,
    {
        match self {
            Piece::T => 0,
            Piece::I => 1,
            Piece::J => 2,
            Piece::L => 3,
            Piece::O => 4,
            Piece::S => 5,
            Piece::Z => 6,
        }
    }

    /// Canonical rotation for deduplication.
    pub fn canonical(self, rotation: Rotation) -> (r: Rotation)
        ensures
            r == canonical_spec(self, rotation),
    {
        match self {
            Piece::I | Piece::S | Piece::Z => {
                let i = rotation.index() as u8;
                let b = i & 1;
                assert(b == i % 2) by (bit_vector) requires b == i & 1;
                Rotation::from(b)
            },
            Piece::O => Rotation::North,
            Piece::T | Piece::J | Piece::L => rotation,
        }
    }

    /// Total number of canonical rotations for this piece.
    pub fn canonical_rotations(self) -> (r: usize)
        ensures
            r == canonical_rotations_spec(self),
    {
        match self {
            Piece::I | Piece::S | Piece::Z => 2,
            Piece::O => 1,
            Piece::T | Piece::J | Piece::L => 4,
        }
    }

    /// Whether `rotation` is a canonical rotation of this piece.
    pub fn is_canonical(self, rotation: Rotation) -> (r: bool)
        ensures
            r == is_canonical_spec(self, rotation),
    {
        match self {
            Piece::I | Piece::S | Piece::Z => match rotation {
                Rotation::North | Rotation::East => true,
                _ => false,
            },
            Piece::O => match rotation {
                Rotation::North => true,
                _ => false,
            },
            Piece::T | Piece::J | Piece::L => true,
        }
    }

    /// The piece with index `index`.
    pub fn from_index(index: u8) -> (r: Piece)
        requires
            index < 7,
        ensures
            r == piece_from_index(index as int),
            piece_index(r) == index,
    {
        match index {
            0 => Piece::T,
            1 => Piece::I,
            2 => Piece::J,
            3 => Piece::L,
            4 => Piece::O,
            5 => Piece::S,
            _ => Piece::Z,
        }
    }
}

/// The canonical rotation is canonical, canonicalising twice changes
/// nothing, and a rotation is canonical exactly when it is its own
/// canonical rotation.
pub proof fn lemma_canonical_rotation(p: Piece, r: Rotation)
    ensures
        is_canonical_spec(p, canonical_spec(p, r)),
        canonical_spec(p, canonical_spec(p, r)) == canonical_spec(p, r),
        is_canonical_spec(p, r) <==> canonical_spec(p, r) == r,
{
}

/// `canonical_rotations` counts the rotations that are canonical.
pub proof fn lemma_canonical_rotations_count(p: Piece)
    ensures
        canonical_rotations_spec(p) == (if is_canonical_spec(p, Rotation::North) { 1int } else { 0 })
            + (if is_canonical_spec(p, Rotation::East) { 1int } else { 0 })
            + (if is_canonical_spec(p, Rotation::South) { 1int } else { 0 })
            + (if is_canonical_spec(p, Rotation::West) { 1int } else { 0 }),
        forall|r: Rotation| is_canonical_spec(p, r) ==> rot_index(r) < canonical_rotations_spec(p),
{
}

} // verus!
