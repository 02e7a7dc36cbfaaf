use vstd::prelude::*;
use crate::piece::Piece;
use crate::rotation::{Rotation, rot_index, rot_from_index};

verus! {

/// `(dx, dy)` offsets of each mino relative to the SRS pivot point, for
/// `(piece, rotation)`. `dy > 0` is upward.
pub open spec fn piece_cells_spec(p: Piece, r: Rotation) -> Seq<(i8, i8)> {
    match p {
        Piece::T => match r {
            Rotation::North => seq![(0i8, 0i8), (-1i8, 0i8), (0i8, 1i8), (1i8, 0i8)],
            Rotation::East => seq![(0i8, 0i8), (0i8, 1i8), (0i8, -1i8), (1i8, 0i8)],
            Rotation::South => seq![(0i8, 0i8), (-1i8, 0i8), (0i8, -1i8), (1i8, 0i8)],
            Rotation::West => seq![(0i8, 0i8), (0i8, 1i8), (0i8, -1i8), (-1i8, 0i8)],
        },
        Piece::I => match r {
            Rotation::North => seq![(0i8, 0i8), (-1i8, 0i8), (1i8, 0i8), (2i8, 0i8)],
            Rotation::East => seq![(0i8, 0i8), (0i8, 1i8), (0i8, -1i8), (0i8, -2i8)],
            Rotation::South => seq![(0i8, 0i8), (-1i8, 0i8), (1i8, 0i8), (-2i8, 0i8)],
            Rotation::West => seq![(0i8, 0i8), (0i8, -1i8), (0i8, 1i8), (0i8, 2i8)],
        },
        Piece::J => match r {
            Rotation::North => seq![(0i8, 0i8), (-1i8, 0i8), (-1i8, 1i8), (1i8, 0i8)],
            Rotation::East => seq![(0i8, 0i8), (0i8, 1i8), (1i8, 1i8), (0i8, -1i8)],
            Rotation::South => seq![(0i8, 0i8), (-1i8, 0i8), (1i8, 0i8), (1i8, -1i8)],
            Rotation::West => seq![(0i8, 0i8), (0i8, 1i8), (-1i8, -1i8), (0i8, -1i8)],
        },
        Piece::L => match r {
            Rotation::North => seq![(0i8, 0i8), (-1i8, 0i8), (1i8, 1i8), (1i8, 0i8)],
            Rotation::East => seq![(0i8, 0i8), (0i8, 1i8), (1i8, -1i8), (0i8, -1i8)],
            Rotation::South => seq![(0i8, 0i8), (-1i8, 0i8), (1i8, 0i8), (-1i8, -1i8)],
            Rotation::West => seq![(0i8, 0i8), (0i8, 1i8), (-1i8, 1i8), (0i8, -1i8)],
        },
        Piece::O => match r {
            Rotation::North => seq![(0i8, 0i8), (1i8, 0i8), (0i8, 1i8), (1i8, 1i8)],
            Rotation::East => seq![(0i8, 0i8), (1i8, 0i8), (0i8, -1i8), (1i8, -1i8)],
            Rotation::South => seq![(0i8, 0i8), (-1i8, 0i8), (0i8, -1i8), (-1i8, -1i8)],
            Rotation::West => seq![(0i8, 0i8), (-1i8, 0i8), (0i8, 1i8), (-1i8, 1i8)],
        },
        Piece::S => match r {
            Rotation::North => seq![(0i8, 0i8), (-1i8, 0i8), (0i8, 1i8), (1i8, 1i8)],
            Rotation::East => seq![(0i8, 0i8), (0i8, 1i8), (1i8, 0i8), (1i8, -1i8)],
            Rotation::South => seq![(0i8, 0i8), (0i8, -1i8), (-1i8, -1i8), (1i8, 0i8)],
            Rotation::West => seq![(0i8, 0i8), (-1i8, 0i8), (-1i8, 1i8), (0i8, -1i8)],
        },
        Piece::Z => match r {
            Rotation::North => seq![(0i8, 0i8), (0i8, 1i8), (-1i8, 1i8), (1i8, 0i8)],
            Rotation::East => seq![(0i8, 0i8), (1i8, 0i8), (1i8, 1i8), (0i8, -1i8)],
            Rotation::South => seq![(0i8, 0i8), (-1i8, 0i8), (0i8, -1i8), (1i8, -1i8)],
            Rotation::West => seq![(0i8, 0i8), (-1i8, 0i8), (-1i8, -1i8), (0i8, 1i8)],
        },
    }
}

/// Whether `(cx, cy)` is one of the cells of `p` in rotation `r`, relative
/// to the pivot.
pub open spec fn cell_of(p: Piece, r: Rotation, cx: int, cy: int) -> bool {
    let c = piece_cells_spec(p, r);
    ||| (c[0].0 as int, c[0].1 as int) == (cx, cy)
    ||| (c[1].0 as int, c[1].1 as int) == (cx, cy)
    ||| (c[2].0 as int, c[2].1 as int) == (cx, cy)
    ||| (c[3].0 as int, c[3].1 as int) == (cx, cy)
}

/// The rotation a quarter turn clockwise from `r`.
pub open spec fn next_rotation(r: Rotation) -> Rotation {
    rot_from_index(rot_index(r) + 1)
}

/// The rotation `r` seen in a mirror: East and West trade places.
pub open spec fn mirrored_rotation(r: Rotation) -> Rotation {
    match r {
        Rotation::East => Rotation::West,
        Rotation::West => Rotation::East,
        _ => r,
    }
}

/// Each rotation of a piece is the previous one turned a quarter turn
/// clockwise about the pivot: `(dx, dy)` goes to `(dy, -dx)`.
pub proof fn lemma_cells_turn(p: Piece, r: Rotation)
    ensures
        forall|cx: int, cy: int| #[trigger] cell_of(p, next_rotation(r), cx, cy) == cell_of(p, r, -cy, cx),
{
    match p {
        Piece::T => match r { Rotation::North => {}, Rotation::East => {}, Rotation::South => {}, Rotation::West => {} },
        Piece::I => match r { Rotation::North => {}, Rotation::East => {}, Rotation::South => {}, Rotation::West => {} },
        Piece::J => match r { Rotation::North => {}, Rotation::East => {}, Rotation::South => {}, Rotation::West => {} },
        Piece::L => match r { Rotation::North => {}, Rotation::East => {}, Rotation::South => {}, Rotation::West => {} },
        Piece::O => match r { Rotation::North => {}, Rotation::East => {}, Rotation::South => {}, Rotation::West => {} },
        Piece::S => match r { Rotation::North => {}, Rotation::East => {}, Rotation::South => {}, Rotation::West => {} },
        Piece::Z => match r { Rotation::North => {}, Rotation::East => {}, Rotation::South => {}, Rotation::West => {} },
    }
}

/// J and L, and S and Z, are mirror images of each other, and T is its own
/// mirror image: mirroring `(dx, dy)` to `(-dx, dy)` turns one into the
/// other with East and West traded. A J lying flat raises its corner on
/// the left.
pub proof fn lemma_cells_mirror(r: Rotation)
    ensures
        forall|cx: int, cy: int| #[trigger] cell_of(Piece::L, mirrored_rotation(r), cx, cy) == cell_of(Piece::J, r, -cx, cy),
        forall|cx: int, cy: int| #[trigger] cell_of(Piece::Z, mirrored_rotation(r), cx, cy) == cell_of(Piece::S, r, -cx, cy),
        forall|cx: int, cy: int| #[trigger] cell_of(Piece::T, mirrored_rotation(r), cx, cy) == cell_of(Piece::T, r, -cx, cy),
        cell_of(Piece::J, Rotation::North, -1, 1),
        !cell_of(Piece::J, Rotation::North, 1, 1),
{
    match r { Rotation::North => {}, Rotation::East => {}, Rotation::South => {}, Rotation::West => {} }
}

/// An O turns without moving: every kick of an O takes the piece onto the
/// same four cells it covered before the turn.
pub proof fn lemma_o_kicks_keep_cells(from: Rotation, to: Rotation)
    ensures
        forall|i: int, cx: int, cy: int| 0 <= i < kicks_spec(Piece::O, from, to).len() ==>
            #[trigger] cell_of(Piece::O, to, cx - kicks_spec(Piece::O, from, to)[i].0, cy - kicks_spec(Piece::O, from, to)[i].1)
                == cell_of(Piece::O, from, cx, cy),
{
    match from {
        Rotation::North => match to { Rotation::North => {}, Rotation::East => {}, Rotation::South => {}, Rotation::West => {} },
        Rotation::East => match to { Rotation::North => {}, Rotation::East => {}, Rotation::South => {}, Rotation::West => {} },
        Rotation::South => match to { Rotation::North => {}, Rotation::East => {}, Rotation::South => {}, Rotation::West => {} },
        Rotation::West => match to { Rotation::North => {}, Rotation::East => {}, Rotation::South => {}, Rotation::West => {} },
    }
}

/// Cell offsets for `(piece, rotation)`.
pub fn piece_cells(p: Piece, r: Rotation) -> (c: [(i8, i8); 4])
    ensures
        c@ == piece_cells_spec(p, r),
{
    match p {
        Piece::T => match r {
            Rotation::North => [(0, 0), (-1, 0), (0, 1), (1, 0)],
            Rotation::East => [(0, 0), (0, 1), (0, -1), (1, 0)],
            Rotation::South => [(0, 0), (-1, 0), (0, -1), (1, 0)],
            Rotation::West => [(0, 0), (0, 1), (0, -1), (-1, 0)],
        },
        Piece::I => match r {
            Rotation::North => [(0, 0), (-1, 0), (1, 0), (2, 0)],
            Rotation::East => [(0, 0), (0, 1), (0, -1), (0, -2)],
            Rotation::South => [(0, 0), (-1, 0), (1, 0), (-2, 0)],
            Rotation::West => [(0, 0), (0, -1), (0, 1), (0, 2)],
        },
        Piece::J => match r {
            Rotation::North => [(0, 0), (-1, 0), (-1, 1), (1, 0)],
            Rotation::East => [(0, 0), (0, 1), (1, 1), (0, -1)],
            Rotation::South => [(0, 0), (-1, 0), (1, 0), (1, -1)],
            Rotation::West => [(0, 0), (0, 1), (-1, -1), (0, -1)],
        },
        Piece::L => match r {
            Rotation::North => [(0, 0), (-1, 0), (1, 1), (1, 0)],
            Rotation::East => [(0, 0), (0, 1), (1, -1), (0, -1)],
            Rotation::South => [(0, 0), (-1, 0), (1, 0), (-1, -1)],
            Rotation::West => [(0, 0), (0, 1), (-1, 1), (0, -1)],
        },
        Piece::O => match r {
            Rotation::North => [(0, 0), (1, 0), (0, 1), (1, 1)],
            Rotation::East => [(0, 0), (1, 0), (0, -1), (1, -1)],
            Rotation::South => [(0, 0), (-1, 0), (0, -1), (-1, -1)],
            Rotation::West => [(0, 0), (-1, 0), (0, 1), (-1, 1)],
        },
        Piece::S => match r {
            Rotation::North => [(0, 0), (-1, 0), (0, 1), (1, 1)],
            Rotation::East => [(0, 0), (0, 1), (1, 0), (1, -1)],
            Rotation::South => [(0, 0), (0, -1), (-1, -1), (1, 0)],
            Rotation::West => [(0, 0), (-1, 0), (-1, 1), (0, -1)],
        },
        Piece::Z => match r {
            Rotation::North => [(0, 0), (0, 1), (-1, 1), (1, 0)],
            Rotation::East => [(0, 0), (1, 0), (1, 1), (0, -1)],
            Rotation::South => [(0, 0), (-1, 0), (0, -1), (1, -1)],
            Rotation::West => [(0, 0), (-1, 0), (-1, -1), (0, 1)],
        },
    }
}

/// Every offset lies within `-2..=2`.
pub proof fn lemma_piece_cells_bounded(p: Piece, r: Rotation)
    ensures
        piece_cells_spec(p, r).len() == 4,
        forall|i: int| 0 <= i < 4 ==> -2 <= (#[trigger] piece_cells_spec(p, r)[i]).0 <= 2
            && -2 <= piece_cells_spec(p, r)[i].1 <= 2,
        piece_cells_spec(p, r)[0] == (0i8, 0i8),
{
}

/// The smallest `dx` among the cells of `(p, r)`.
pub open spec fn min_dx(p: Piece, r: Rotation) -> int {
    let c = piece_cells_spec(p, r);
    vstd::math::min(vstd::math::min(c[0].0 as int, c[1].0 as int), vstd::math::min(c[2].0 as int, c[3].0 as int))
}

/// The largest `dx` among the cells of `(p, r)`.
pub open spec fn max_dx(p: Piece, r: Rotation) -> int {
    let c = piece_cells_spec(p, r);
    vstd::math::max(vstd::math::max(c[0].0 as int, c[1].0 as int), vstd::math::max(c[2].0 as int, c[3].0 as int))
}

/// Minimum x offset so the leftmost cell is at column 0, and the maximum x
/// offset so the rightmost cell is at column 9.
pub fn x_range(piece: Piece, rot: Rotation) -> (r: (i8, i8))
    ensures
        r.0 == -min_dx(piece, rot),
        r.1 == 9 - max_dx(piece, rot),
{
    let cells = piece_cells(piece, rot);
    proof {
        lemma_piece_cells_bounded(piece, rot);
    }
    let mut min: i8 = i8::MAX;
    let mut max: i8 = i8::MIN;
    let mut i: usize = 0;
    while i < 4
        invariant
            i <= 4,
            cells@ == piece_cells_spec(piece, rot),
            forall|k: int| 0 <= k < 4 ==> -2 <= (#[trigger] cells@[k]).0 <= 2,
            i == 0 ==> min == i8::MAX && max == i8::MIN,
            i > 0 ==> -2 <= min <= 2 && -2 <= max <= 2,
            forall|k: int| 0 <= k < i ==> min <= (#[trigger] cells@[k]).0 && cells@[k].0 <= max,
            i > 0 ==> exists|k: int| 0 <= k < i && cells@[k].0 == min,
            i > 0 ==> exists|k: int| 0 <= k < i && cells@[k].0 == max,
        decreases 4 - i,
    {
        let dx = cells[i].0;
        if dx < min {
            min = dx;
        }
        if dx > max {
            max = dx;
        }
        i += 1;
    }
    proof {
        let c = cells@;
        assert(min <= c[0].0 && min <= c[1].0 && min <= c[2].0 && min <= c[3].0);
        assert(max >= c[0].0 && max >= c[1].0 && max >= c[2].0 && max >= c[3].0);
    }
    (-min, 9 - max)
}

/// The SRS kick offsets, in the order they are tried, for rotating `piece`
/// from `from` to `to`; empty when `from == to`. Turning back tries the
/// same offsets negated.
pub open spec fn kicks_spec(piece: Piece, from: Rotation, to: Rotation) -> Seq<(i8, i8)> {
    match piece {
        Piece::T | Piece::J | Piece::L | Piece::S | Piece::Z => match (from, to) {
            (Rotation::North, Rotation::East) | (Rotation::South, Rotation::East) => seq![(0i8, 0i8), (-1i8, 0i8), (-1i8, 1i8), (0i8, -2i8), (-1i8, -2i8)],
            (Rotation::East, Rotation::South) | (Rotation::East, Rotation::North) => seq![(0i8, 0i8), (1i8, 0i8), (1i8, -1i8), (0i8, 2i8), (1i8, 2i8)],
            (Rotation::South, Rotation::West) | (Rotation::North, Rotation::West) => seq![(0i8, 0i8), (1i8, 0i8), (1i8, 1i8), (0i8, -2i8), (1i8, -2i8)],
            (Rotation::West, Rotation::North) | (Rotation::West, Rotation::South) => seq![(0i8, 0i8), (-1i8, 0i8), (-1i8, -1i8), (0i8, 2i8), (-1i8, 2i8)],
            (Rotation::North, Rotation::South) => seq![(0i8, 0i8), (0i8, 1i8)],
            (Rotation::East, Rotation::West) => seq![(0i8, 0i8), (1i8, 0i8)],
            (Rotation::South, Rotation::North) => seq![(0i8, 0i8), (0i8, -1i8)],
            (Rotation::West, Rotation::East) => seq![(0i8, 0i8), (-1i8, 0i8)],
            _ => Seq::empty(),
        },
        Piece::I => match (from, to) {
            (Rotation::North, Rotation::East) | (Rotation::West, Rotation::South) => seq![(1i8, 0i8), (-1i8, 0i8), (2i8, 0i8), (-1i8, -1i8), (2i8, 2i8)],
            (Rotation::East, Rotation::South) | (Rotation::North, Rotation::West) => seq![(0i8, -1i8), (-1i8, -1i8), (2i8, -1i8), (-1i8, 1i8), (2i8, -2i8)],
            (Rotation::South, Rotation::West) | (Rotation::East, Rotation::North) => seq![(-1i8, 0i8), (1i8, 0i8), (-2i8, 0i8), (1i8, 1i8), (-2i8, -2i8)],
            (Rotation::West, Rotation::North) | (Rotation::South, Rotation::East) => seq![(0i8, 1i8), (1i8, 1i8), (-2i8, 1i8), (1i8, -1i8), (-2i8, 2i8)],
            (Rotation::North, Rotation::South) => seq![(1i8, -1i8), (1i8, 0i8)],
            (Rotation::East, Rotation::West) => seq![(-1i8, -1i8), (0i8, -1i8)],
            (Rotation::South, Rotation::North) => seq![(-1i8, 1i8), (-1i8, 0i8)],
            (Rotation::West, Rotation::East) => seq![(1i8, 1i8), (0i8, 1i8)],
            _ => Seq::empty(),
        },
        Piece::O => match (from, to) {
            (Rotation::East, Rotation::South) | (Rotation::North, Rotation::West) => seq![(1i8, 0i8)],
            (Rotation::North, Rotation::East) | (Rotation::West, Rotation::South) => seq![(0i8, 1i8)],
            (Rotation::West, Rotation::North) | (Rotation::South, Rotation::East) => seq![(-1i8, 0i8)],
            (Rotation::South, Rotation::West) | (Rotation::East, Rotation::North) => seq![(0i8, -1i8)],
            (Rotation::North, Rotation::South) => seq![(1i8, 1i8)],
            (Rotation::East, Rotation::West) => seq![(1i8, -1i8)],
            (Rotation::South, Rotation::North) => seq![(-1i8, -1i8)],
            (Rotation::West, Rotation::East) => seq![(-1i8, 1i8)],
            _ => Seq::empty(),
        },
    }
}

/// The SRS kick offsets for rotating `piece` from `from` to `to`.
pub fn kicks_for(piece: Piece, from: Rotation, to: Rotation) -> (k: Vec<(i8, i8)>)
    ensures
        k@ == kicks_spec(piece, from, to),
{
    match piece {
        Piece::T | Piece::J | Piece::L | Piece::S | Piece::Z => match (from, to) {
            (Rotation::North, Rotation::East) | (Rotation::South, Rotation::East) => vec![(0, 0), (-1, 0), (-1, 1), (0, -2), (-1, -2)],
            (Rotation::East, Rotation::South) | (Rotation::East, Rotation::North) => vec![(0, 0), (1, 0), (1, -1), (0, 2), (1, 2)],
            (Rotation::South, Rotation::West) | (Rotation::North, Rotation::West) => vec![(0, 0), (1, 0), (1, 1), (0, -2), (1, -2)],
            (Rotation::West, Rotation::North) | (Rotation::West, Rotation::South) => vec![(0, 0), (-1, 0), (-1, -1), (0, 2), (-1, 2)],
            (Rotation::North, Rotation::South) => vec![(0, 0), (0, 1)],
            (Rotation::East, Rotation::West) => vec![(0, 0), (1, 0)],
            (Rotation::South, Rotation::North) => vec![(0, 0), (0, -1)],
            (Rotation::West, Rotation::East) => vec![(0, 0), (-1, 0)],
            _ => Vec::new(),
        },
        Piece::I => match (from, to) {
            (Rotation::North, Rotation::East) | (Rotation::West, Rotation::South) => vec![(1, 0), (-1, 0), (2, 0), (-1, -1), (2, 2)],
            (Rotation::East, Rotation::South) | (Rotation::North, Rotation::West) => vec![(0, -1), (-1, -1), (2, -1), (-1, 1), (2, -2)],
            (Rotation::South, Rotation::West) | (Rotation::East, Rotation::North) => vec![(-1, 0), (1, 0), (-2, 0), (1, 1), (-2, -2)],
            (Rotation::West, Rotation::North) | (Rotation::South, Rotation::East) => vec![(0, 1), (1, 1), (-2, 1), (1, -1), (-2, 2)],
            (Rotation::North, Rotation::South) => vec![(1, -1), (1, 0)],
            (Rotation::East, Rotation::West) => vec![(-1, -1), (0, -1)],
            (Rotation::South, Rotation::North) => vec![(-1, 1), (-1, 0)],
            (Rotation::West, Rotation::East) => vec![(1, 1), (0, 1)],
            _ => Vec::new(),
        },
        Piece::O => match (from, to) {
            (Rotation::East, Rotation::South) | (Rotation::North, Rotation::West) => vec![(1, 0)],
            (Rotation::North, Rotation::East) | (Rotation::West, Rotation::South) => vec![(0, 1)],
            (Rotation::West, Rotation::North) | (Rotation::South, Rotation::East) => vec![(-1, 0)],
            (Rotation::South, Rotation::West) | (Rotation::East, Rotation::North) => vec![(0, -1)],
            (Rotation::North, Rotation::South) => vec![(1, 1)],
            (Rotation::East, Rotation::West) => vec![(1, -1)],
            (Rotation::South, Rotation::North) => vec![(-1, -1)],
            (Rotation::West, Rotation::East) => vec![(-1, 1)],
            _ => Vec::new(),
        },
    }
}

/// Turning back from `to` to `from` tries the kicks of turning from `from`
/// to `to`, negated, in the same order.
pub proof fn lemma_kicks_reverse(piece: Piece, from: Rotation, to: Rotation)
    ensures
        kicks_spec(piece, to, from).len() == kicks_spec(piece, from, to).len(),
        forall|i: int| 0 <= i < kicks_spec(piece, from, to).len() ==>
            (#[trigger] kicks_spec(piece, to, from)[i]).0 == -kicks_spec(piece, from, to)[i].0
            && kicks_spec(piece, to, from)[i].1 == -kicks_spec(piece, from, to)[i].1,
{
}

/// Kick tables hold at most five offsets, each within `-2..=2`.
pub proof fn lemma_kicks_bounded(piece: Piece, from: Rotation, to: Rotation)
    ensures
        kicks_spec(piece, from, to).len() <= 5,
        forall|i: int| 0 <= i < kicks_spec(piece, from, to).len() ==>
            -2 <= (#[trigger] kicks_spec(piece, from, to)[i]).0 <= 2
            && -2 <= kicks_spec(piece, from, to)[i].1 <= 2,
        from != to ==> kicks_spec(piece, from, to).len() >= 1,
        from == to ==> kicks_spec(piece, from, to).len() == 0,
{
}

} // verus!
