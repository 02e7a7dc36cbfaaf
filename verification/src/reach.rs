use vstd::prelude::*;
use crate::board::Board;
use crate::collision_map::collides_spec;
use crate::data::{kicks_spec, piece_cells_spec};
use crate::detect::{spin_max_spec, t_spin_spec};
use crate::piece::Piece;
use crate::placement::Move;
use crate::rotation::{Rotation, rot_index, rot_from_index};
use crate::spin::{Spin, Spins};

verus! {

/// The rows a placement's pivot may occupy (the rows of `COL_MASK`).
pub const FIELD_ROWS: usize = 6;

/// The column where pieces spawn.
pub const SPAWN_X: usize = 4;

/// The row where pieces spawn: the highest pivot row at which every piece's
/// North cells stay within the six rows.
pub const SPAWN_Y: usize = 4;

/// The number of `(x, y, rotation)` positions a pivot can take.
pub const POSITIONS: usize = 240;

/// A pivot position `(x, y, rotation)`.
pub type Pos = (int, int, Rotation);

/// The position pieces spawn at, facing North.
pub open spec fn spawn_pos() -> Pos {
    (SPAWN_X as int, SPAWN_Y as int, Rotation::North)
}

/// Whether `p` may rest at position `t`: the pivot lies in the field and the
/// piece overlaps nothing solid.
pub open spec fn fits(b: Board, p: Piece, t: Pos) -> bool {
    0 <= t.0 < 10 && 0 <= t.1 < FIELD_ROWS && !collides_spec(b, p, t.2, t.0, t.1)
}

/// Whether `p` rests at `t`: it fits, and one row lower it would collide.
pub open spec fn landed_at(b: Board, p: Piece, t: Pos) -> bool {
    fits(b, p, t) && collides_spec(b, p, t.2, t.0, t.1 - 1)
}

/// The rotation reached by turning `r` by `dir` quarter turns clockwise
/// (`1` clockwise, `2` half turn, `3` counter-clockwise).
pub open spec fn turn(r: Rotation, dir: int) -> Rotation {
    rot_from_index(rot_index(r) + dir)
}

/// The first SRS kick, from index `j` on, that lets `p` turn from `from` at
/// `(x, y)` into `to`: the new pivot and the kick's index.
pub open spec fn kick_from(b: Board, p: Piece, x: int, y: int, from: Rotation, to: Rotation, j: int) -> Option<(int, int, int)>
    decreases kicks_spec(p, from, to).len() - j,
{
    let ks = kicks_spec(p, from, to);
    if j < 0 || j >= ks.len() {
        None
    } else if fits(b, p, (x + ks[j].0, y + ks[j].1, to)) {
        Some((x + ks[j].0, y + ks[j].1, j))
    } else {
        kick_from(b, p, x, y, from, to, j + 1)
    }
}

/// The outcome of turning `p` at `s` by `dir`: the new pivot and the index
/// of the kick used, or `None` when no kick fits.
pub open spec fn rotation_result(b: Board, p: Piece, s: Pos, dir: int) -> Option<(int, int, int)> {
    kick_from(b, p, s.0, s.1, s.2, turn(s.2, dir), 0)
}

/// Whether one shift left, right or down moves `p` from `s` to `t`.
pub open spec fn shift_edge(b: Board, p: Piece, s: Pos, t: Pos) -> bool {
    &&& t.2 == s.2
    &&& fits(b, p, t)
    &&& ((t.0 == s.0 - 1 && t.1 == s.1) || (t.0 == s.0 + 1 && t.1 == s.1) || (t.0 == s.0 && t.1 == s.1 - 1))
}

/// Whether turning by `dir` moves `p` from `s` to `t`, using kick `k`.
pub open spec fn rot_edge_with(b: Board, p: Piece, s: Pos, dir: int, t: Pos, k: int) -> bool {
    &&& 1 <= dir <= 3
    &&& rotation_result(b, p, s, dir) == Some((t.0, t.1, k))
    &&& t.2 == turn(s.2, dir)
}

/// The position reached by turning `p` at `s` by `dir`, if any kick fits.
pub open spec fn rot_target(b: Board, p: Piece, s: Pos, dir: int) -> Option<Pos> {
    match rotation_result(b, p, s, dir) {
        Some(v) => Some((v.0, v.1, turn(s.2, dir))),
        None => None,
    }
}

/// Whether one rotation (clockwise, half or counter-clockwise) moves `p`
/// from `s` to `t`.
pub open spec fn rot_edge(b: Board, p: Piece, s: Pos, t: Pos) -> bool {
    ||| rot_target(b, p, s, 1) == Some(t)
    ||| rot_target(b, p, s, 2) == Some(t)
    ||| rot_target(b, p, s, 3) == Some(t)
}

/// Whether a single input moves `p` from `s` to `t`.
pub open spec fn edge(b: Board, p: Piece, s: Pos, t: Pos) -> bool {
    shift_edge(b, p, s, t) || rot_edge(b, p, s, t)
}

/// Whether `path` is a sequence of inputs' positions starting at the spawn
/// position, each reached from the previous one by a single input.
pub open spec fn is_path(b: Board, p: Piece, path: Seq<Pos>) -> bool {
    &&& path.len() > 0
    &&& path[0] == spawn_pos()
    &&& fits(b, p, spawn_pos())
    &&& forall|i: int| 0 <= i < path.len() - 1 ==> #[trigger] edge(b, p, path[i], path[i + 1])
}

/// Whether `t` can be reached from the spawn position.
pub open spec fn reachable(b: Board, p: Piece, t: Pos) -> bool {
    exists|path: Seq<Pos>| #[trigger] is_path(b, p, path) && path.last() == t
}

/// Whether `p` in rotation `r` at `(x, y)` cannot move left, right, down or
/// up (the upward check only looks at rows below 8).
pub open spec fn immobile_at(b: Board, p: Piece, r: Rotation, x: int, y: int) -> bool {
    &&& (x == 0 || collides_spec(b, p, r, x - 1, y))
    &&& (x + 1 >= 10 || collides_spec(b, p, r, x + 1, y))
    &&& (y == 0 || collides_spec(b, p, r, x, y - 1))
    &&& (y + 1 >= 8 || collides_spec(b, p, r, x, y + 1))
}

/// The spin state of a placement entered by turning by `dir` with kick `k`
/// into `t`: with `Spins::T`, the T rule (a TST kick is the last kick of a
/// quarter turn); with `Spins::All`, additionally an immobile piece is at
/// least a mini; with `Spins::NoSpins`, nothing is a spin.
pub open spec fn rotation_spin(b: Board, p: Piece, spins: Spins, t: Pos, k: int, dir: int) -> Spin {
    let tspin = if p == Piece::T {
        t_spin_spec(b, t.0, t.1, t.2, k == 4 && dir != 2)
    } else {
        Spin::NoSpin
    };
    match spins {
        Spins::NoSpins => Spin::NoSpin,
        Spins::T => tspin,
        Spins::All => spin_max_spec(tspin, if immobile_at(b, p, t.2, t.0, t.1) { Spin::Mini } else { Spin::NoSpin }),
    }
}

/// Whether the piece can arrive at `t` with spin state `tag` as its last
/// input: a shift (or spawning there) gives no spin, a rotation gives
/// `rotation_spin`.
pub open spec fn arrives_with(b: Board, p: Piece, spins: Spins, t: Pos, tag: Spin) -> bool {
    ||| (tag == Spin::NoSpin && ((t == spawn_pos() && fits(b, p, spawn_pos()))
        || exists|s: Pos| #[trigger] reachable(b, p, s) && shift_edge(b, p, s, t)))
    ||| exists|s: Pos, dir: int, k: int| reachable(b, p, s) && #[trigger] rot_edge_with(b, p, s, dir, t, k)
        && rotation_spin(b, p, spins, t, k, dir) == tag
}

/// Whether `m` is one of the placements move generation owes for `p` on `b`:
/// the canonical form of a reachable landed position with a spin state it
/// can be entered with, provided that canonical form lies in the field.
pub open spec fn is_generated(b: Board, p: Piece, spins: Spins, m: Move) -> bool {
    exists|x: int, y: int, r: Rotation, tag: Spin| {
        &&& #[trigger] reachable(b, p, (x, y, r))
        &&& landed_at(b, p, (x, y, r))
        &&& arrives_with(b, p, spins, (x, y, r), tag)
        &&& Move::pack(x, y, r, p, tag).is_placement()
        &&& m == #[trigger] Move::pack(x, y, r, p, tag).canonical_move()
    }
}

/// A sequence of distinct numbers below `n` has at most `n` elements.
pub proof fn lemma_distinct_below(s: Seq<usize>, n: nat)
    requires
        s.no_duplicates(),
        forall|i: int| 0 <= i < s.len() ==> (#[trigger] s[i]) < n,
    ensures
        s.len() <= n,
    decreases n,
{
    if n == 0 {
        if s.len() > 0 {
            assert(s[0] < 0);
        }
    } else if exists|j: int| 0 <= j < s.len() && s[j] == n - 1 {
        let j = choose|j: int| 0 <= j < s.len() && s[j] == n - 1;
        let t = s.remove(j);
        assert forall|i: int| 0 <= i < t.len() implies (#[trigger] t[i]) < n - 1 by {
            if i < j {
                assert(t[i] == s[i]);
            } else {
                assert(t[i] == s[i + 1]);
            }
        }
        assert forall|a: int, c: int| 0 <= a < t.len() && 0 <= c < t.len() && a != c implies t[a] != t[c] by {
            let a2 = if a < j { a } else { a + 1 };
            let c2 = if c < j { c } else { c + 1 };
            assert(t[a] == s[a2]);
            assert(t[c] == s[c2]);
        }
        lemma_distinct_below(t, (n - 1) as nat);
    } else {
        assert forall|i: int| 0 <= i < s.len() implies (#[trigger] s[i]) < n - 1 by {
            assert(s[i] != n - 1);
        }
        lemma_distinct_below(s, (n - 1) as nat);
    }
}

/// The spawn position is reachable when it fits.
pub proof fn lemma_reach_spawn(b: Board, p: Piece)
    requires
        fits(b, p, spawn_pos()),
    ensures
        reachable(b, p, spawn_pos()),
{
    let path = seq![spawn_pos()];
    assert(is_path(b, p, path));
}

/// A reachable position's successors are reachable.
pub proof fn lemma_reach_step(b: Board, p: Piece, s: Pos, t: Pos)
    requires
        reachable(b, p, s),
        edge(b, p, s, t),
    ensures
        reachable(b, p, t),
{
    let path = choose|path: Seq<Pos>| #[trigger] is_path(b, p, path) && path.last() == s;
    let q = path.push(t);
    assert forall|i: int| 0 <= i < q.len() - 1 implies #[trigger] edge(b, p, q[i], q[i + 1]) by {
        if i < path.len() - 1 {
            assert(q[i] == path[i] && q[i + 1] == path[i + 1]);
        } else {
            assert(q[i] == s && q[i + 1] == t);
        }
    }
    assert(is_path(b, p, q));
}

/// Every position of a path lies in a set that holds the spawn position and
/// is closed under inputs.
proof fn lemma_path_closed(b: Board, p: Piece, set: spec_fn(Pos) -> bool, path: Seq<Pos>, i: int)
    requires
        set(spawn_pos()),
        forall|s: Pos, u: Pos| set(s) && #[trigger] edge(b, p, s, u) ==> set(u),
        is_path(b, p, path),
        0 <= i < path.len(),
    ensures
        set(path[i]),
    decreases i,
{
    if i > 0 {
        lemma_path_closed(b, p, set, path, i - 1);
        assert(edge(b, p, path[i - 1], path[(i - 1) + 1]));
    }
}

/// Every reachable position lies in a set that holds the spawn position and
/// is closed under inputs.
pub proof fn lemma_reach_closed(b: Board, p: Piece, set: spec_fn(Pos) -> bool, t: Pos)
    requires
        set(spawn_pos()),
        forall|s: Pos, u: Pos| set(s) && #[trigger] edge(b, p, s, u) ==> set(u),
        reachable(b, p, t),
    ensures
        set(t),
{
    let path = choose|path: Seq<Pos>| #[trigger] is_path(b, p, path) && path.last() == t;
    lemma_path_closed(b, p, set, path, path.len() - 1);
}

/// Reachable positions fit.
pub proof fn lemma_reach_fits(b: Board, p: Piece, t: Pos)
    requires
        reachable(b, p, t),
    ensures
        fits(b, p, t),
{
    let path = choose|path: Seq<Pos>| #[trigger] is_path(b, p, path) && path.last() == t;
    let i = path.len() - 1;
    if i > 0 {
        let s = path[i - 1];
        assert(edge(b, p, path[i - 1], path[(i - 1) + 1]));
        lemma_rotation_fits(b, p, s, 1);
        lemma_rotation_fits(b, p, s, 2);
        lemma_rotation_fits(b, p, s, 3);
    }
}

/// The kick search only returns fitting positions, with a kick index in
/// range.
pub proof fn lemma_kick_from_fits(b: Board, p: Piece, x: int, y: int, from: Rotation, to: Rotation, j: int)
    ensures
        kick_from(b, p, x, y, from, to, j) matches Some(v) ==> fits(b, p, (v.0, v.1, to))
            && 0 <= v.2 < kicks_spec(p, from, to).len()
            && v.0 == x + kicks_spec(p, from, to)[v.2].0
            && v.1 == y + kicks_spec(p, from, to)[v.2].1,
    decreases kicks_spec(p, from, to).len() - j,
{
    let ks = kicks_spec(p, from, to);
    if j < 0 || j >= ks.len() {
    } else if fits(b, p, (x + ks[j].0, y + ks[j].1, to)) {
    } else {
        lemma_kick_from_fits(b, p, x, y, from, to, j + 1);
    }
}

/// A rotation only ever lands on a fitting position.
pub proof fn lemma_rotation_fits(b: Board, p: Piece, s: Pos, dir: int)
    ensures
        rotation_result(b, p, s, dir) matches Some(v) ==> fits(b, p, (v.0, v.1, turn(s.2, dir))),
{
    lemma_kick_from_fits(b, p, s.0, s.1, s.2, turn(s.2, dir), 0);
}

} // verus!
