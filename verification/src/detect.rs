use vstd::prelude::*;
use crate::board::Board;
use crate::header::bit;
use crate::nav_collision_map::CollisionMap;
use crate::rotation::{Rotation, rot_index};
use crate::spin::{Spin, spin_index};
use crate::data::{cell_of, piece_cells_spec};
use crate::piece::Piece;

verus! {

/// The larger of two spin states, in the order `NoSpin < Mini < Full`.
pub open spec fn spin_max_spec(a: Spin, b: Spin) -> Spin {
    if spin_index(a) >= spin_index(b) {
        a
    } else {
        b
    }
}

/// The larger of two spin states.
pub fn spin_max(a: Spin, b: Spin) -> (r: Spin)
    ensures
        r == spin_max_spec(a, b),
{
    match (a, b) {
        (Spin::Full, _) | (_, Spin::Full) => Spin::Full,
        (Spin::Mini, _) | (_, Spin::Mini) => Spin::Mini,
        _ => Spin::NoSpin,
    }
}

/// `spin_max` is commutative, associative and idempotent, `NoSpin` is its
/// identity and `Full` absorbs everything.
pub proof fn lemma_spin_max(a: Spin, b: Spin, c: Spin)
    ensures
        spin_max_spec(a, b) == spin_max_spec(b, a),
        spin_max_spec(spin_max_spec(a, b), c) == spin_max_spec(a, spin_max_spec(b, c)),
        spin_max_spec(a, a) == a,
        spin_max_spec(a, Spin::NoSpin) == a,
        spin_max_spec(a, Spin::Full) == Spin::Full,
{
}

/// Whether the piece in rotation `rot` at `(x, y)` cannot move left, right,
/// down or up in the collision map `cm` (walls and the floor block, and the
/// upward check only looks at rows below 8).
pub open spec fn immobile_spec(cm: CollisionMap, rot: Rotation, x: int, y: int) -> bool {
    let col = |cx: int| cm.0[rot_index(rot)].0[cx];
    &&& (x == 0 || bit(col(x - 1), y as u64))
    &&& (x + 1 >= 10 || bit(col(x + 1), y as u64))
    &&& (y == 0 || bit(col(x), (y - 1) as u64))
    &&& (y + 1 >= 8 || bit(col(x), (y + 1) as u64))
}

/// Whether the piece in rotation `rot` at `(x, y)` is immobile.
pub fn is_immobile<const PIECE: u8>(cm: &CollisionMap, rot: Rotation, x: usize, y: usize) -> (r: bool)
    requires
        x < 10,
        y < 64,
    ensures
        r == immobile_spec(*cm, rot, x as int, y as int),
{
    if x > 0 && !cm.collides(x - 1, y, rot) {
        return false;
    }
    if x + 1 < 10 && !cm.collides(x + 1, y, rot) {
        return false;
    }
    if y > 0 && !cm.collides(x, y - 1, rot) {
        return false;
    }
    if y + 1 < 8 && !cm.collides(x, y + 1, rot) {
        return false;
    }
    true
}

/// The four corners diagonally adjacent to a T's center.
pub fn t_corners() -> (c: [(i8, i8); 4])
    ensures
        c@ == seq![(-1i8, 1i8), (1i8, 1i8), (-1i8, -1i8), (1i8, -1i8)],
{
    [(-1, 1), (1, 1), (-1, -1), (1, -1)]
}

/// The two "front" corners of a T in rotation `r`: those adjacent to the
/// mino that sticks out.
pub open spec fn t_front_corners_spec(r: Rotation) -> Seq<(i8, i8)> {
    match r {
        Rotation::North => seq![(-1i8, 1i8), (1i8, 1i8)],
        Rotation::East => seq![(1i8, 1i8), (1i8, -1i8)],
        Rotation::South => seq![(-1i8, -1i8), (1i8, -1i8)],
        Rotation::West => seq![(-1i8, 1i8), (-1i8, -1i8)],
    }
}

/// `|a|`.
pub open spec fn abs(a: int) -> int {
    if a >= 0 { a } else { -a }
}

/// The front corners of a T are the two diagonal neighbours of the pivot
/// that touch the mino sticking out: the cell of the T other than the pivot
/// whose opposite cell is not part of the T.
pub proof fn lemma_front_corners_flank_stem(r: Rotation)
    ensures
        forall|i: int, j: int| 0 <= i < 2 && 0 <= j < 4
            && (#[trigger] piece_cells_spec(Piece::T, r)[j]) != (0i8, 0i8)
            && !cell_of(Piece::T, r, -piece_cells_spec(Piece::T, r)[j].0, -piece_cells_spec(Piece::T, r)[j].1)
            ==> abs((#[trigger] t_front_corners_spec(r)[i]).0 - piece_cells_spec(Piece::T, r)[j].0)
                + abs(t_front_corners_spec(r)[i].1 - piece_cells_spec(Piece::T, r)[j].1) == 1,
        forall|i: int| 0 <= i < 2 ==> abs((#[trigger] t_front_corners_spec(r)[i]).0 as int) == 1
            && abs(t_front_corners_spec(r)[i].1 as int) == 1,
        t_front_corners_spec(r)[0] != t_front_corners_spec(r)[1],
{
    match r {
        Rotation::North => {},
        Rotation::East => {},
        Rotation::South => {},
        Rotation::West => {},
    }
}

/// The two front corners of a T in rotation `r`.
pub fn t_front_corners(r: Rotation) -> (c: [(i8, i8); 2])
    ensures
        c@ == t_front_corners_spec(r),
{
    match r {
        Rotation::North => [(-1, 1), (1, 1)],
        Rotation::East => [(1, 1), (1, -1)],
        Rotation::South => [(-1, -1), (1, -1)],
        Rotation::West => [(-1, 1), (-1, -1)],
    }
}

/// Whether `(cx, cy)` counts as occupied for spin detection: the walls and
/// the floor are occupied, open sky (rows above the board data) is not.
pub open spec fn occupied_spec(board: Board, cx: int, cy: int) -> bool {
    cx < 0 || cx >= 10 || cy < 0 || board.cell(cx, cy)
}

/// `1` when `b` holds, `0` otherwise.
pub open spec fn count_if(b: bool) -> int {
    if b {
        1
    } else {
        0
    }
}

/// The spin state a T at `(x, y)` in rotation `rot` gets from its corners:
/// fewer than three occupied corners is no spin; otherwise a TST kick, or
/// both front corners occupied, is a full spin, and anything else a mini.
pub open spec fn t_spin_spec(board: Board, x: int, y: int, rot: Rotation, is_tst: bool) -> Spin {
    let total = count_if(occupied_spec(board, x - 1, y + 1)) + count_if(occupied_spec(board, x + 1, y + 1))
        + count_if(occupied_spec(board, x - 1, y - 1)) + count_if(occupied_spec(board, x + 1, y - 1));
    let f = t_front_corners_spec(rot);
    let front = count_if(occupied_spec(board, x + f[0].0, y + f[0].1)) + count_if(
        occupied_spec(board, x + f[1].0, y + f[1].1),
    );
    if total < 3 {
        Spin::NoSpin
    } else if is_tst {
        Spin::Full
    } else if front == 2 {
        Spin::Full
    } else {
        Spin::Mini
    }
}

/// The T-spin state of a T at `(x, y)` in rotation `rot`.
pub fn t_spin_from_corners(board: Board, x: usize, y: usize, rot: Rotation, is_tst: bool) -> (s: Spin)
    requires
        x < 127,
        y < 63,
    ensures
        s == t_spin_spec(board, x as int, y as int, rot, is_tst),
{
    let corners = t_corners();
    let front_corners = t_front_corners(rot);
    let xi = x as i8;
    let yi = y as i8;
    let mut total: u32 = 0;
    if cell_occupied(board, xi + corners[0].0, yi + corners[0].1) {
        total += 1;
    }
    if cell_occupied(board, xi + corners[1].0, yi + corners[1].1) {
        total += 1;
    }
    if cell_occupied(board, xi + corners[2].0, yi + corners[2].1) {
        total += 1;
    }
    if cell_occupied(board, xi + corners[3].0, yi + corners[3].1) {
        total += 1;
    }
    let mut front_count: u32 = 0;
    proof {
        assert(-1 <= front_corners[0].0 <= 1 && -1 <= front_corners[0].1 <= 1);
        assert(-1 <= front_corners[1].0 <= 1 && -1 <= front_corners[1].1 <= 1);
    }
    if cell_occupied(board, xi + front_corners[0].0, yi + front_corners[0].1) {
        front_count += 1;
    }
    if cell_occupied(board, xi + front_corners[1].0, yi + front_corners[1].1) {
        front_count += 1;
    }
    if total < 3 {
        return Spin::NoSpin;
    }
    if is_tst {
        return Spin::Full;
    }
    if front_count == 2 {
        Spin::Full
    } else {
        Spin::Mini
    }
}

/// Whether `(cx, cy)` counts as occupied for spin detection.
pub fn cell_occupied(board: Board, cx: i8, cy: i8) -> (r: bool)
    requires
        cy < 64,
    ensures
        r == occupied_spec(board, cx as int, cy as int),
{
    if cx < 0 || cx >= 10 || cy < 0 {
        return true;
    }
    board.get(cx as usize, cy as usize)
}

} // verus!
