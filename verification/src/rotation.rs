use vstd::prelude::*;

verus! {

/// A piece orientation. All pieces spawn facing `Rotation::North`.
#[derive(Clone, Copy, PartialEq, Eq, Debug, Structural)]
pub enum Rotation {
    North,
    East,
    South,
    West,
}

/// A change in rotation.
#[derive(Clone, Copy, PartialEq, Eq, Debug, Structural)]
pub enum Direction {
    NoTurn,
    CW,
    CCW,
    Flip,
}

/// The number of rotations.
pub const ROTATIONS: usize = 4;

/// The index `0..4` of a rotation, clockwise from North.
pub open spec fn rot_index(r: Rotation) -> int {
    match r {
        Rotation::North => 0,
        Rotation::East => 1,
        Rotation::South => 2,
        Rotation::West => 3,
    }
}

/// The rotation with index `i mod 4`.
pub open spec fn rot_from_index(i: int) -> Rotation {
    let k = i % 4;
    if k == 0 {
        Rotation::North
    } else if k == 1 {
        Rotation::East
    } else if k == 2 {
        Rotation::South
    } else {
        Rotation::West
    }
}

impl Rotation {
    /// The index `0..4` of this rotation.
    pub fn index(self) -> (r: usize)
        ensures
            r == rot_index(self),
            r < 4,
    {
        match self {
            Rotation::North => 0,
            Rotation::East => 1,
            Rotation::South => 2,
            Rotation::West => 3,
        }
    }

    /// The rotation with a clockwise movement applied.
    pub fn cw(self) -> (r: Rotation)
        ensures
            r == rot_from_index(rot_index(self) + 1),
    {
        match self {
            Rotation::North => Rotation::East,
            Rotation::East => Rotation::South,
            Rotation::South => Rotation::West,
            Rotation::West => Rotation::North,
        }
    }

    /// The rotation with a counter-clockwise movement applied.
    pub fn ccw(self) -> (r: Rotation)
        ensures
            r == rot_from_index(rot_index(self) + 3),
    {
        match self {
            Rotation::North => Rotation::West,
            Rotation::East => Rotation::North,
            Rotation::South => Rotation::East,
            Rotation::West => Rotation::South,
        }
    }

    /// The rotation with a 180-degree movement applied.
    pub fn flip(self) -> (r: Rotation)
        ensures
            r == rot_from_index(rot_index(self) + 2),
    {
        match self {
            Rotation::North => Rotation::South,
            Rotation::East => Rotation::West,
            Rotation::South => Rotation::North,
            Rotation::West => Rotation::East,
        }
    }

    /// The rotation whose index is the low two bits of `value`.
    pub fn from(value: u8) -> (r: Rotation)
        ensures
            r == rot_from_index(value as int),
    {
        let k = value & 3;
        assert(k == value % 4) by (bit_vector) requires k == value & 3;
        if k == 0 {
            Rotation::North
        } else if k == 1 {
            Rotation::East
        } else if k == 2 {
            Rotation::South
        } else {
            Rotation::West
        }
    }

    /// The `Direction` to transition from this rotation to `other`.
    pub fn transition(self, other: Self) -> (d: Direction)
        ensures
            d == transition_spec(self, other),
    {
        match (self, other) {
            (Rotation::North, Rotation::North)
            | (Rotation::South, Rotation::South)
            | (Rotation::West, Rotation::West)
            | (Rotation::East, Rotation::East) => Direction::NoTurn,
            (Rotation::North, Rotation::South)
            | (Rotation::South, Rotation::North)
            | (Rotation::East, Rotation::West)
            | (Rotation::West, Rotation::East) => Direction::Flip,
            (Rotation::North, Rotation::East)
            | (Rotation::East, Rotation::South)
            | (Rotation::South, Rotation::West)
            | (Rotation::West, Rotation::North) => Direction::CW,
            (Rotation::North, Rotation::West)
            | (Rotation::East, Rotation::North)
            | (Rotation::South, Rotation::East)
            | (Rotation::West, Rotation::South) => Direction::CCW,
        }
    }
}

/// The direction that turns `from` into `to`: the number of clockwise quarter
/// turns between them, 0, 1, 2 or 3.
pub open spec fn transition_spec(from: Rotation, to: Rotation) -> Direction {
    let k = (rot_index(to) - rot_index(from) + 4) % 4;
    if k == 0 {
        Direction::NoTurn
    } else if k == 1 {
        Direction::CW
    } else if k == 2 {
        Direction::Flip
    } else {
        Direction::CCW
    }
}

/// Rotating clockwise and then counter-clockwise, or the other way round,
/// returns to the same rotation; two clockwise turns are a flip; four
/// clockwise turns are the identity.
pub proof fn lemma_rotation_group(r: Rotation)
    ensures
        rot_from_index(rot_index(rot_from_index(rot_index(r) + 1)) + 3) == r,
        rot_from_index(rot_index(rot_from_index(rot_index(r) + 3)) + 1) == r,
        rot_from_index(rot_index(rot_from_index(rot_index(r) + 1)) + 1) == rot_from_index(rot_index(r) + 2),
        rot_from_index(rot_index(rot_from_index(rot_index(r) + 2)) + 2) == r,
{
}

/// `transition` names the turn that `cw`, `ccw` and `flip` perform:
/// turning `r` in direction `transition(r, s)` yields `s`.
pub proof fn lemma_transition_matches_turns(r: Rotation, s: Rotation)
    ensures
        transition_spec(r, s) == Direction::NoTurn <==> s == r,
        transition_spec(r, s) == Direction::CW <==> s == rot_from_index(rot_index(r) + 1),
        transition_spec(r, s) == Direction::CCW <==> s == rot_from_index(rot_index(r) + 3),
        transition_spec(r, s) == Direction::Flip <==> s == rot_from_index(rot_index(r) + 2),
{
}

} // verus!
