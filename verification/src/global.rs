use vstd::prelude::*;
use crate::board::Board;
use crate::buffer::{MoveBuffer, MAX_MOVES};
use crate::collision_map::{CollisionMap, collides_spec, landed_bit};
use crate::data::{kicks_for, kicks_spec, lemma_kicks_bounded, lemma_piece_cells_bounded, piece_cells_spec};
use crate::detect::{immobile_spec, is_immobile, spin_max, spin_max_spec, t_spin_from_corners, t_spin_spec};
use crate::header::bit;
use crate::nav_collision_map;
use crate::piece::{Piece, piece_from_index};
use crate::placement::{Move, canonical_offset};
use crate::reach::{
    Pos, arrives_with, edge, fits, is_generated, kick_from, landed_at, lemma_distinct_below, lemma_reach_closed,
    lemma_reach_fits, lemma_reach_spawn, lemma_reach_step, lemma_rotation_fits, reachable, rot_edge, rot_edge_with,
    rot_target, rotation_result, rotation_spin, immobile_at, shift_edge, spawn_pos, turn, SPAWN_X, SPAWN_Y,
};
use crate::rotation::{Rotation, rot_index, rot_from_index};
use crate::spin::{Spin, Spins, spin_index};

verus! {

/// The index of a position: `rotation * 60 + y * 10 + x`.
pub open spec fn pos_index(t: Pos) -> int {
    rot_index(t.2) * 60 + t.1 * 10 + t.0
}

/// The position with index `i`.
pub open spec fn index_pos(i: int) -> Pos {
    (i % 10, (i / 10) % 6, rot_from_index(i / 60))
}

/// Whether `t` lies in the field.
pub open spec fn in_field(t: Pos) -> bool {
    0 <= t.0 < 10 && 0 <= t.1 < 6
}

pub(crate) proof fn lemma_pos_index(t: Pos)
    requires
        in_field(t),
    ensures
        0 <= pos_index(t) < 240,
        index_pos(pos_index(t)) == t,
{
    let i = pos_index(t);
    let r = rot_index(t.2);
    assert(0 <= r < 4);
    assert(i % 10 == t.0) by (nonlinear_arith) requires i == r * 60 + t.1 * 10 + t.0, 0 <= t.0 < 10, 0 <= t.1 < 6, 0 <= r < 4;
    assert((i / 10) % 6 == t.1) by (nonlinear_arith) requires i == r * 60 + t.1 * 10 + t.0, 0 <= t.0 < 10, 0 <= t.1 < 6, 0 <= r < 4;
    assert(i / 60 == r) by (nonlinear_arith) requires i == r * 60 + t.1 * 10 + t.0, 0 <= t.0 < 10, 0 <= t.1 < 6, 0 <= r < 4;
}

pub(crate) proof fn lemma_index_pos(i: int)
    requires
        0 <= i < 240,
    ensures
        in_field(index_pos(i)),
        pos_index(index_pos(i)) == i,
{
    let t = index_pos(i);
    assert(0 <= i / 60 < 4);
    assert(rot_index(rot_from_index(i / 60)) == i / 60);
    assert(i == (i / 60) * 60 + ((i / 10) % 6) * 10 + i % 10) by (nonlinear_arith) requires 0 <= i < 240;
}

/// Whether `map` is the collision map of `p` on `b`.
pub open spec fn map_of(map: CollisionMap, b: Board, p: Piece) -> bool {
    forall|r: int, x: int, y: u64| 0 <= r < 4 && 0 <= x < 10 && y < 64 ==>
        #[trigger] bit(map.0[r].0[x], y) == collides_spec(b, p, rot_from_index(r), x, y as int)
}

/// Whether `p` fits at `(x, y)` in rotation `r`.
pub(crate) fn fits_at(map: &CollisionMap, Ghost(b): Ghost<Board>, Ghost(p): Ghost<Piece>, x: i32, y: i32, r: Rotation) -> (f: bool)
    requires
        map_of(*map, b, p),
    ensures
        f == fits(b, p, (x as int, y as int, r)),
{
    if 0 <= x && x < 10 && 0 <= y && y < 6 {
        proof {
            assert(rot_from_index(rot_index(r)) == r);
        }
        map.free(x as usize, y as usize, r)
    } else {
        false
    }
}

/// The first kick that lets `p` turn from `from` at `(x, y)` into `to`.
pub(crate) fn rotate(map: &CollisionMap, Ghost(b): Ghost<Board>, piece: Piece, x: i32, y: i32, from: Rotation, to: Rotation) -> (res: Option<(i32, i32, usize)>)
    requires
        map_of(*map, b, piece),
        0 <= x < 10,
        0 <= y < 6,
    ensures
        match res {
            Some(v) => kick_from(b, piece, x as int, y as int, from, to, 0) == Some((v.0 as int, v.1 as int, v.2 as int)),
            None => kick_from(b, piece, x as int, y as int, from, to, 0) is None,
        },
{
    let kicks = kicks_for(piece, from, to);
    proof {
        lemma_kicks_bounded(piece, from, to);
    }
    let mut j: usize = 0;
    while j < kicks.len()
        invariant
            kicks@ == kicks_spec(piece, from, to),
            kicks@.len() <= 5,
            j <= kicks@.len(),
            map_of(*map, b, piece),
            0 <= x < 10,
            0 <= y < 6,
            forall|i: int| 0 <= i < kicks@.len() ==> -2 <= (#[trigger] kicks@[i]).0 <= 2 && -2 <= kicks@[i].1 <= 2,
            kick_from(b, piece, x as int, y as int, from, to, 0) == kick_from(b, piece, x as int, y as int, from, to, j as int),
        decreases kicks@.len() - j,
    {
        let (dx, dy) = kicks[j];
        let nx = x + dx as i32;
        let ny = y + dy as i32;
        if fits_at(map, Ghost(b), Ghost(piece), nx, ny, to) {
            return Some((nx, ny, j));
        }
        j += 1;
    }
    None
}

/// Whether `p` rests at `(x, y)` in rotation `r`.
fn landed_at_exec(map: &CollisionMap, Ghost(b): Ghost<Board>, Ghost(p): Ghost<Piece>, x: usize, y: usize, r: Rotation) -> (l: bool)
    requires
        map_of(*map, b, p),
        x < 10,
        y < 6,
    ensures
        l == landed_at(b, p, (x as int, y as int, r)),
{
    proof {
        assert(rot_from_index(rot_index(r)) == r);
        lemma_piece_cells_bounded(p, r);
        if y == 0 {
            assert(collides_spec(b, p, r, x as int, -1));
        } else {
            assert(bit(map.0[rot_index(r)].0[x as int], (y - 1) as u64) == collides_spec(b, p, r, x as int, y - 1));
        }
    }
    map.landed(x, y, r)
}

/// The spin state of a placement entered by turning by `dir` with kick `k`
/// into `(x, y, r)`.
fn rotation_spin_exec(map: &CollisionMap, board: Board, piece: Piece, spins: Spins, x: usize, y: usize, r: Rotation, k: usize, dir: u8) -> (s: Spin)
    requires
        map_of(*map, board, piece),
        x < 10,
        y < 6,
        1 <= dir <= 3,
    ensures
        s == rotation_spin(board, piece, spins, (x as int, y as int, r), k as int, dir as int),
{
    let tspin = if piece == Piece::T {
        t_spin_from_corners(board, x, y, r, k == 4 && dir != 2)
    } else {
        Spin::NoSpin
    };
    match spins {
        Spins::NoSpins => Spin::NoSpin,
        Spins::T => tspin,
        Spins::All => {
            let nav = nav_collision_map::CollisionMap(map.0);
            let immobile = is_immobile::<0>(&nav, r, x, y);
            proof {
                let ri = rot_index(r);
                assert(rot_from_index(ri) == r);
                assert(immobile_spec(nav, r, x as int, y as int) == immobile_at(board, piece, r, x as int, y as int)) by {
                    if x > 0 {
                        assert(bit(map.0[ri].0[x - 1], y as u64) == collides_spec(board, piece, r, x - 1, y as int));
                    }
                    if x + 1 < 10 {
                        assert(bit(map.0[ri].0[x + 1], y as u64) == collides_spec(board, piece, r, x + 1, y as int));
                    }
                    if y > 0 {
                        assert(bit(map.0[ri].0[x as int], (y - 1) as u64) == collides_spec(board, piece, r, x as int, y - 1));
                    }
                    if y + 1 < 8 {
                        assert(bit(map.0[ri].0[x as int], (y + 1) as u64) == collides_spec(board, piece, r, x as int, y + 1));
                    }
                }
            }
            spin_max(tspin, if immobile { Spin::Mini } else { Spin::NoSpin })
        },
    }
}

} // verus!

verus! {

/// Whether `t` is one shift (left, right or down) away from `u`.
pub open spec fn shift_nbr(u: Pos, t: Pos) -> bool {
    t.2 == u.2 && ((t.0 == u.0 - 1 && t.1 == u.1) || (t.0 == u.0 + 1 && t.1 == u.1) || (t.0 == u.0 && t.1 == u.1 - 1))
}

/// The spin state index of the placement reached from `u` by turning by
/// `dir`, if the turn succeeds.
pub open spec fn rot_tag(b: Board, p: Piece, spins: Spins, u: Pos, dir: int) -> int {
    match rotation_result(b, p, u, dir) {
        Some(v) => spin_index(rotation_spin(b, p, spins, (v.0, v.1, turn(u.2, dir)), v.2, dir)),
        None => 0,
    }
}

/// The state of a breadth-first search over positions.
struct Search {
    visited: [bool; 240],
    plain: [bool; 240],
    spun: [bool; 720],
    queue: Vec<usize>,
}

impl Search {
    /// The queue holds each visited position once, and every visited
    /// position is reachable.
    spec fn ok(&self, b: Board, p: Piece) -> bool {
        &&& self.queue@.len() <= 240
        &&& self.queue@.no_duplicates()
        &&& forall|j: int| 0 <= j < self.queue@.len() ==> #[trigger] self.queue@[j] < 240
        &&& forall|i: int| 0 <= i < 240 ==> (#[trigger] self.visited[i] <==> self.queue@.contains(i as usize))
        &&& forall|i: int| 0 <= i < 240 && #[trigger] self.visited[i] ==> reachable(b, p, index_pos(i))
    }

    /// Mark position `t` visited, queueing it when it is new.
    fn discover(&mut self, Ghost(b): Ghost<Board>, Ghost(p): Ghost<Piece>, t: usize)
        requires
            old(self).ok(b, p),
            t < 240,
            reachable(b, p, index_pos(t as int)),
        ensures
            final(self).ok(b, p),
            final(self).visited@ == old(self).visited@.update(t as int, true),
            final(self).plain == old(self).plain,
            final(self).spun == old(self).spun,
            final(self).queue@.len() >= old(self).queue@.len(),
            forall|j: int| 0 <= j < old(self).queue@.len() ==> #[trigger] final(self).queue@[j] == old(self).queue@[j],
    {
        if !self.visited[t] {
            proof {
                assert(!self.queue@.contains(t));
                assert forall|j: int| 0 <= j < self.queue@.len() implies #[trigger] self.queue@[j] != t by {
                    if self.queue@[j] == t {
                        assert(self.queue@.contains(t));
                    }
                }
                let q = self.queue@;
                assert(q.no_duplicates());
            }
            let ghost q0 = self.queue@;
            self.visited[t] = true;
            self.queue.push(t);
            proof {
                let q = self.queue@;
                assert(q == q0.push(t));
                assert forall|a: int, c: int| 0 <= a < q.len() && 0 <= c < q.len() && a != c implies q[a] != q[c] by {
                    if a < q0.len() && c < q0.len() {
                        assert(q0[a] != q0[c]);
                    }
                }
                lemma_distinct_below(q, 240);
                assert forall|i: int| 0 <= i < 240 implies (#[trigger] self.visited[i] <==> q.contains(i as usize)) by {
                    if i != t {
                        if q.contains(i as usize) {
                            let j = choose|j: int| 0 <= j < q.len() && q[j] == i as usize;
                            if j < q0.len() {
                                assert(q0.contains(i as usize));
                            }
                        }
                        if q0.contains(i as usize) {
                            let j = choose|j: int| 0 <= j < q0.len() && q0[j] == i as usize;
                            assert(q[j] == i as usize);
                        }
                    } else {
                        assert(q[q0.len() as int] == t);
                    }
                }
            }
        } else {
            proof {
                assert(self.visited@ =~= self.visited@.update(t as int, true));
            }
        }
    }

    /// Follow a shift from `u` to `(x, y, r)`, where it fits.
    fn visit_shift(&mut self, map: &CollisionMap, Ghost(b): Ghost<Board>, Ghost(p): Ghost<Piece>, Ghost(u): Ghost<Pos>, x: i32, y: i32, r: Rotation)
        requires
            old(self).ok(b, p),
            map_of(*map, b, p),
            reachable(b, p, u),
            shift_nbr(u, (x as int, y as int, r)),
        ensures
            final(self).ok(b, p),
            fits(b, p, (x as int, y as int, r)) ==> {
                &&& final(self).plain@ == old(self).plain@.update(pos_index((x as int, y as int, r)), true)
                &&& final(self).visited@ == old(self).visited@.update(pos_index((x as int, y as int, r)), true)
            },
            !fits(b, p, (x as int, y as int, r)) ==> final(self).plain == old(self).plain && final(self).visited == old(self).visited,
            final(self).spun == old(self).spun,
            final(self).queue@.len() >= old(self).queue@.len(),
            forall|j: int| 0 <= j < old(self).queue@.len() ==> #[trigger] final(self).queue@[j] == old(self).queue@[j],
    {
        if fits_at(map, Ghost(b), Ghost(p), x, y, r) {
            let t = (r.index() * 60 + (y as usize) * 10 + x as usize);
            let ghost tp = (x as int, y as int, r);
            proof {
                assert(t == pos_index(tp));
                lemma_pos_index(tp);
                assert(shift_edge(b, p, u, tp));
                lemma_reach_step(b, p, u, tp);
            }
            self.plain[t] = true;
            self.discover(Ghost(b), Ghost(p), t);
        }
    }

    /// Follow a turn by `dir` from position `u`, where a kick fits.
    fn visit_rotation(&mut self, map: &CollisionMap, board: Board, piece: Piece, spins: Spins, u: usize, dir: u8)
        requires
            old(self).ok(board, piece),
            map_of(*map, board, piece),
            u < 240,
            reachable(board, piece, index_pos(u as int)),
            1 <= dir <= 3,
        ensures
            final(self).ok(board, piece),
            forall|j: int| 0 <= j < 720 ==> #[trigger] final(self).spun@[j] == (old(self).spun@[j]
                || (rot_target(board, piece, index_pos(u as int), dir as int) is Some
                    && j == pos_index(rot_target(board, piece, index_pos(u as int), dir as int)->0) * 3
                        + rot_tag(board, piece, spins, index_pos(u as int), dir as int))),
            rot_target(board, piece, index_pos(u as int), dir as int) is Some ==> {
                &&& in_field(rot_target(board, piece, index_pos(u as int), dir as int)->0)
                &&& 0 <= rot_tag(board, piece, spins, index_pos(u as int), dir as int) < 3
                &&& final(self).visited[pos_index(rot_target(board, piece, index_pos(u as int), dir as int)->0)]
            },
            forall|i: int| 0 <= i < 240 && old(self).visited[i] ==> #[trigger] final(self).visited[i],
            final(self).plain == old(self).plain,
            final(self).queue@.len() >= old(self).queue@.len(),
            forall|j: int| 0 <= j < old(self).queue@.len() ==> #[trigger] final(self).queue@[j] == old(self).queue@[j],
    {
        let ghost up = index_pos(u as int);
        proof {
            lemma_index_pos(u as int);
        }
        let x = (u % 10) as i32;
        let y = ((u / 10) % 6) as i32;
        let from = Rotation::from((u / 60) as u8);
        let to = match dir {
            1 => from.cw(),
            2 => from.flip(),
            _ => from.ccw(),
        };
        proof {
            assert(from == up.2);
            assert(to == turn(up.2, dir as int));
            lemma_rotation_fits(board, piece, up, dir as int);
        }
        match rotate(map, Ghost(board), piece, x, y, from, to) {
            Some((nx, ny, k)) => {
                let ghost tp = (nx as int, ny as int, to);
                proof {
                    assert(rot_target(board, piece, up, dir as int) == Some(tp));
                    lemma_pos_index(tp);
                    assert(rot_edge(board, piece, up, tp));
                    lemma_reach_step(board, piece, up, tp);
                }
                let tag = rotation_spin_exec(map, board, piece, spins, nx as usize, ny as usize, to, k, dir);
                let g: usize = match tag {
                    Spin::NoSpin => 0,
                    Spin::Mini => 1,
                    Spin::Full => 2,
                };
                let t = to.index() * 60 + (ny as usize) * 10 + nx as usize;
                proof {
                    assert(t == pos_index(tp));
                    assert(g == rot_tag(board, piece, spins, up, dir as int));
                }
                let ghost sp0 = self.spun@;
                self.spun[t * 3 + g] = true;
                assert(self.spun@ == sp0.update(t * 3 + g, true));
                self.discover(Ghost(board), Ghost(piece), t);
            },
            None => {},
        }
    }
}

} // verus!

verus! {

proof fn lemma_slot(i: int, g: int, i2: int, g2: int)
    requires
        0 <= g < 3,
        0 <= g2 < 3,
        0 <= i,
        0 <= i2,
    ensures
        (i * 3 + g == i2 * 3 + g2) <==> (i == i2 && g == g2),
{
    if i * 3 + g == i2 * 3 + g2 {
        assert(i == i2 && g == g2) by (nonlinear_arith)
            requires i * 3 + g == i2 * 3 + g2, 0 <= g < 3, 0 <= g2 < 3, 0 <= i, 0 <= i2;
    }
}

/// Whether some turn from `u` enters `t` with the spin state of index `g`.
pub open spec fn turns_into(b: Board, p: Piece, spins: Spins, u: Pos, t: Pos, g: int) -> bool {
    exists|dir: int, k: int| #[trigger] rot_edge_with(b, p, u, dir, t, k) && spin_index(rotation_spin(b, p, spins, t, k, dir)) == g
}

proof fn lemma_turns_into(b: Board, p: Piece, spins: Spins, u: Pos, t: Pos, g: int)
    ensures
        turns_into(b, p, spins, u, t, g) <==> (
            (rot_target(b, p, u, 1) == Some(t) && rot_tag(b, p, spins, u, 1) == g)
            || (rot_target(b, p, u, 2) == Some(t) && rot_tag(b, p, spins, u, 2) == g)
            || (rot_target(b, p, u, 3) == Some(t) && rot_tag(b, p, spins, u, 3) == g)),
{
    if turns_into(b, p, spins, u, t, g) {
        let (dir, k) = choose|dir: int, k: int| #[trigger] rot_edge_with(b, p, u, dir, t, k) && spin_index(rotation_spin(b, p, spins, t, k, dir)) == g;
        assert(dir == 1 || dir == 2 || dir == 3);
    }
    let d = if rot_target(b, p, u, 1) == Some(t) && rot_tag(b, p, spins, u, 1) == g {
        1int
    } else if rot_target(b, p, u, 2) == Some(t) && rot_tag(b, p, spins, u, 2) == g {
        2int
    } else {
        3int
    };
    if rot_target(b, p, u, d) == Some(t) && rot_tag(b, p, spins, u, d) == g {
        let v = rotation_result(b, p, u, d)->0;
        assert(rot_edge_with(b, p, u, d, t, v.2));
    }
}

proof fn lemma_expand_plain(b: Board, p: Piece, up: Pos, plain0: Seq<bool>, plain3: Seq<bool>)
    requires
        in_field(up),
        plain0.len() == 240,
        plain3.len() == 240,
        forall|i: int| 0 <= i < 240 ==> #[trigger] plain3[i] == (plain0[i]
            || (fits(b, p, (up.0 - 1, up.1, up.2)) && i == pos_index((up.0 - 1, up.1, up.2)))
            || (fits(b, p, (up.0 + 1, up.1, up.2)) && i == pos_index((up.0 + 1, up.1, up.2)))
            || (fits(b, p, (up.0, up.1 - 1, up.2)) && i == pos_index((up.0, up.1 - 1, up.2)))),
    ensures
        forall|i: int| 0 <= i < 240 ==> #[trigger] plain3[i] == (plain0[i] || shift_edge(b, p, up, index_pos(i))),
{
    let t1 = (up.0 - 1, up.1, up.2);
    let t2 = (up.0 + 1, up.1, up.2);
    let t3 = (up.0, up.1 - 1, up.2);
    if fits(b, p, t1) { lemma_pos_index(t1); }
    if fits(b, p, t2) { lemma_pos_index(t2); }
    if fits(b, p, t3) { lemma_pos_index(t3); }
    assert forall|i: int| 0 <= i < 240 implies #[trigger] plain3[i] == (plain0[i] || shift_edge(b, p, up, index_pos(i))) by {
        lemma_index_pos(i);
        let pi = index_pos(i);
        if shift_edge(b, p, up, pi) {
            assert(pi == t1 || pi == t2 || pi == t3);
        }
    }
}

proof fn lemma_expand_spun(b: Board, p: Piece, spins: Spins, up: Pos, spun0: Seq<bool>, spun3: Seq<bool>)
    requires
        spun0.len() == 720,
        spun3.len() == 720,
        forall|j: int| 0 <= j < 720 ==> #[trigger] spun3[j] == (spun0[j]
            || (rot_target(b, p, up, 1) is Some && j == pos_index(rot_target(b, p, up, 1)->0) * 3 + rot_tag(b, p, spins, up, 1))
            || (rot_target(b, p, up, 2) is Some && j == pos_index(rot_target(b, p, up, 2)->0) * 3 + rot_tag(b, p, spins, up, 2))
            || (rot_target(b, p, up, 3) is Some && j == pos_index(rot_target(b, p, up, 3)->0) * 3 + rot_tag(b, p, spins, up, 3))),
        forall|d: int| 1 <= d <= 3 && (#[trigger] rot_target(b, p, up, d)) is Some ==>
            in_field(rot_target(b, p, up, d)->0) && 0 <= rot_tag(b, p, spins, up, d) < 3,
    ensures
        forall|i: int, g: int| 0 <= i < 240 && 0 <= g < 3 ==> #[trigger] spun3[i * 3 + g] == (spun0[i * 3 + g]
            || turns_into(b, p, spins, up, index_pos(i), g)),
{
    let rt1 = rot_target(b, p, up, 1);
    let rt2 = rot_target(b, p, up, 2);
    let rt3 = rot_target(b, p, up, 3);
    assert forall|i: int, g: int| 0 <= i < 240 && 0 <= g < 3 implies #[trigger] spun3[i * 3 + g] == (spun0[i * 3 + g]
        || turns_into(b, p, spins, up, index_pos(i), g)) by {
        lemma_index_pos(i);
        lemma_turns_into(b, p, spins, up, index_pos(i), g);
        assert(0 <= i * 3 + g < 720);
        if rt1 is Some {
            assert(in_field(rt1->0) && 0 <= rot_tag(b, p, spins, up, 1) < 3);
            lemma_pos_index(rt1->0);
            lemma_slot(i, g, pos_index(rt1->0), rot_tag(b, p, spins, up, 1));
        }
        if rt2 is Some {
            assert(in_field(rt2->0) && 0 <= rot_tag(b, p, spins, up, 2) < 3);
            lemma_pos_index(rt2->0);
            lemma_slot(i, g, pos_index(rt2->0), rot_tag(b, p, spins, up, 2));
        }
        if rt3 is Some {
            assert(in_field(rt3->0) && 0 <= rot_tag(b, p, spins, up, 3) < 3);
            lemma_pos_index(rt3->0);
            lemma_slot(i, g, pos_index(rt3->0), rot_tag(b, p, spins, up, 3));
        }
    }
}

impl Search {
    /// Follow the three shifts from position `u`.
    fn expand_shifts(&mut self, map: &CollisionMap, Ghost(board): Ghost<Board>, Ghost(piece): Ghost<Piece>, u: usize)
        requires
            old(self).ok(board, piece),
            map_of(*map, board, piece),
            u < 240,
            reachable(board, piece, index_pos(u as int)),
        ensures
            final(self).ok(board, piece),
            final(self).queue@.len() >= old(self).queue@.len(),
            forall|j: int| 0 <= j < old(self).queue@.len() ==> #[trigger] final(self).queue@[j] == old(self).queue@[j],
            forall|i: int| 0 <= i < 240 ==> #[trigger] final(self).plain[i] == (old(self).plain[i]
                || shift_edge(board, piece, index_pos(u as int), index_pos(i))),
            final(self).spun == old(self).spun,
            forall|t: Pos| #[trigger] shift_edge(board, piece, index_pos(u as int), t) ==> in_field(t) && final(self).visited[pos_index(t)],
            forall|i: int| 0 <= i < 240 && old(self).visited[i] ==> #[trigger] final(self).visited[i],
    {
        let ghost up = index_pos(u as int);
        let ghost s0 = *self;
        proof {
            lemma_index_pos(u as int);
        }
        let x = (u % 10) as i32;
        let y = ((u / 10) % 6) as i32;
        let r = Rotation::from((u / 60) as u8);
        assert(up == (x as int, y as int, r));
        self.visit_shift(map, Ghost(board), Ghost(piece), Ghost(up), x - 1, y, r);
        self.visit_shift(map, Ghost(board), Ghost(piece), Ghost(up), x + 1, y, r);
        self.visit_shift(map, Ghost(board), Ghost(piece), Ghost(up), x, y - 1, r);
        proof {
            let t1 = (up.0 - 1, up.1, up.2);
            let t2 = (up.0 + 1, up.1, up.2);
            let t3 = (up.0, up.1 - 1, up.2);
            assert forall|i: int| 0 <= i < 240 implies #[trigger] self.plain@[i] == (s0.plain@[i]
                || (fits(board, piece, t1) && i == pos_index(t1))
                || (fits(board, piece, t2) && i == pos_index(t2))
                || (fits(board, piece, t3) && i == pos_index(t3))) by {
            }
            lemma_expand_plain(board, piece, up, s0.plain@, self.plain@);
            assert forall|i: int| 0 <= i < 240 implies #[trigger] self.plain[i] == (s0.plain[i]
                || shift_edge(board, piece, up, index_pos(i))) by {
                assert(self.plain[i] == self.plain@[i]);
            }
            assert forall|t: Pos| #[trigger] shift_edge(board, piece, up, t) implies in_field(t) && self.visited[pos_index(t)] by {
                assert(t == t1 || t == t2 || t == t3);
                lemma_pos_index(t);
            }
        }
    }

    /// Follow the three turns from position `u`.
    fn expand_rotations(&mut self, map: &CollisionMap, board: Board, piece: Piece, spins: Spins, u: usize)
        requires
            old(self).ok(board, piece),
            map_of(*map, board, piece),
            u < 240,
            reachable(board, piece, index_pos(u as int)),
        ensures
            final(self).ok(board, piece),
            final(self).queue@.len() >= old(self).queue@.len(),
            forall|j: int| 0 <= j < old(self).queue@.len() ==> #[trigger] final(self).queue@[j] == old(self).queue@[j],
            final(self).plain == old(self).plain,
            forall|i: int, g: int| 0 <= i < 240 && 0 <= g < 3 ==> #[trigger] final(self).spun[i * 3 + g] == (old(self).spun[i * 3 + g]
                || turns_into(board, piece, spins, index_pos(u as int), index_pos(i), g)),
            forall|t: Pos| #[trigger] rot_edge(board, piece, index_pos(u as int), t) ==> in_field(t) && final(self).visited[pos_index(t)],
            forall|i: int| 0 <= i < 240 && old(self).visited[i] ==> #[trigger] final(self).visited[i],
    {
        let ghost up = index_pos(u as int);
        let ghost s0 = *self;
        self.visit_rotation(map, board, piece, spins, u, 1);
        self.visit_rotation(map, board, piece, spins, u, 2);
        self.visit_rotation(map, board, piece, spins, u, 3);
        proof {
            let rt1 = rot_target(board, piece, up, 1);
            let rt2 = rot_target(board, piece, up, 2);
            let rt3 = rot_target(board, piece, up, 3);
            assert forall|j: int| 0 <= j < 720 implies #[trigger] self.spun@[j] == (s0.spun@[j]
                || (rt1 is Some && j == pos_index(rt1->0) * 3 + rot_tag(board, piece, spins, up, 1))
                || (rt2 is Some && j == pos_index(rt2->0) * 3 + rot_tag(board, piece, spins, up, 2))
                || (rt3 is Some && j == pos_index(rt3->0) * 3 + rot_tag(board, piece, spins, up, 3))) by {
            }
            assert forall|d: int| 1 <= d <= 3 && (#[trigger] rot_target(board, piece, up, d)) is Some implies
                in_field(rot_target(board, piece, up, d)->0) && 0 <= rot_tag(board, piece, spins, up, d) < 3 by {
            }
            lemma_expand_spun(board, piece, spins, up, s0.spun@, self.spun@);
            assert forall|t: Pos| #[trigger] rot_edge(board, piece, up, t) implies in_field(t) && self.visited[pos_index(t)] by {
                assert(rt1 == Some(t) || rt2 == Some(t) || rt3 == Some(t));
            }
            assert forall|i: int, g: int| 0 <= i < 240 && 0 <= g < 3 implies #[trigger] self.spun[i * 3 + g] == (s0.spun[i * 3 + g]
                || turns_into(board, piece, spins, up, index_pos(i), g)) by {
                assert(0 <= i * 3 + g < 720);
                assert(self.spun[i * 3 + g] == self.spun@[i * 3 + g]);
            }
        }
    }
}

} // verus!

verus! {

/// The index of the spawn position.
pub open spec fn spawn_index() -> int {
    pos_index(spawn_pos())
}

/// Whether some already processed position shifts into position `i`.
spec fn shifted_from(b: Board, p: Piece, done: Seq<usize>, i: int) -> bool {
    exists|j: int| 0 <= j < done.len() && #[trigger] shift_edge(b, p, index_pos(done[j] as int), index_pos(i))
}

/// Whether some already processed position turns into position `i` with
/// spin state index `g`.
spec fn turned_from(b: Board, p: Piece, spins: Spins, done: Seq<usize>, i: int, g: int) -> bool {
    exists|j: int| 0 <= j < done.len() && #[trigger] turns_into(b, p, spins, index_pos(done[j] as int), index_pos(i), g)
}

impl Search {
    /// Breadth-first search over the positions `p` can reach on `b`.
    #[verifier::spinoff_prover]
    fn run(map: &CollisionMap, board: Board, piece: Piece, spins: Spins) -> (s: Search)
        requires
            map_of(*map, board, piece),
        ensures
            forall|i: int| 0 <= i < 240 ==> (#[trigger] s.visited[i] <==> reachable(board, piece, index_pos(i))),
            forall|i: int| 0 <= i < 240 ==> (#[trigger] s.plain[i] <==> ((i == spawn_index() && fits(board, piece, spawn_pos()))
                || exists|u: Pos| #[trigger] reachable(board, piece, u) && shift_edge(board, piece, u, index_pos(i)))),
            forall|i: int, g: int| 0 <= i < 240 && 0 <= g < 3 ==> (#[trigger] s.spun[i * 3 + g] <==>
                exists|u: Pos| #[trigger] reachable(board, piece, u) && turns_into(board, piece, spins, u, index_pos(i), g)),
    {
        let mut s = Search { visited: [false; 240], plain: [false; 240], spun: [false; 720], queue: Vec::new() };
        proof {
            lemma_pos_index(spawn_pos());
        }
        let sp: usize = 0 * 60 + SPAWN_Y * 10 + SPAWN_X;
        assert(sp == spawn_index());
        if fits_at(map, Ghost(board), Ghost(piece), SPAWN_X as i32, SPAWN_Y as i32, Rotation::North) {
            proof {
                lemma_reach_spawn(board, piece);
            }
            s.plain[sp] = true;
            s.discover(Ghost(board), Ghost(piece), sp);
        }
        let mut head: usize = 0;
        while head < s.queue.len()
            invariant
                s.ok(board, piece),
                map_of(*map, board, piece),
                head <= s.queue@.len(),
                forall|j: int, t: Pos| 0 <= j < head && #[trigger] edge(board, piece, index_pos(s.queue@[j] as int), t)
                    ==> in_field(t) && s.visited[pos_index(t)],
                forall|i: int| 0 <= i < 240 ==> #[trigger] s.plain[i] == ((i == spawn_index() && fits(board, piece, spawn_pos()))
                    || shifted_from(board, piece, s.queue@.subrange(0, head as int), i)),
                forall|i: int, g: int| 0 <= i < 240 && 0 <= g < 3 ==> #[trigger] s.spun[i * 3 + g]
                    == turned_from(board, piece, spins, s.queue@.subrange(0, head as int), i, g),
                fits(board, piece, spawn_pos()) ==> s.visited[spawn_index()],
            decreases 240 - head,
        {
            let u = s.queue[head];
            let ghost q0 = s.queue@;
            let ghost s0 = s;
            proof {
                assert(s.visited[u as int]) by {
                    assert(s.queue@.contains(u));
                }
            }
            s.expand_shifts(map, Ghost(board), Ghost(piece), u);
            let ghost s1 = s;
            s.expand_rotations(map, board, piece, spins, u);
            proof {
                let d0 = q0.subrange(0, head as int);
                let d1 = s.queue@.subrange(0, head + 1);
                assert(d1 =~= d0.push(u));
                assert forall|i: int| 0 <= i < 240 implies #[trigger] s.plain[i] == ((i == spawn_index() && fits(board, piece, spawn_pos()))
                    || shifted_from(board, piece, d1, i)) by {
                    assert(s.plain[i] == s1.plain[i]);
                    if shifted_from(board, piece, d1, i) {
                        let j = choose|j: int| 0 <= j < d1.len() && #[trigger] shift_edge(board, piece, index_pos(d1[j] as int), index_pos(i));
                        if j < d0.len() {
                            assert(d0[j] == d1[j]);
                            assert(shifted_from(board, piece, d0, i));
                        }
                    }
                    if shifted_from(board, piece, d0, i) {
                        let j = choose|j: int| 0 <= j < d0.len() && #[trigger] shift_edge(board, piece, index_pos(d0[j] as int), index_pos(i));
                        assert(d1[j] == d0[j]);
                    }
                    if shift_edge(board, piece, index_pos(u as int), index_pos(i)) {
                        assert(d1[head as int] == u);
                    }
                }
                assert forall|i: int, g: int| 0 <= i < 240 && 0 <= g < 3 implies #[trigger] s.spun[i * 3 + g]
                    == turned_from(board, piece, spins, d1, i, g) by {
                    if turned_from(board, piece, spins, d1, i, g) {
                        let j = choose|j: int| 0 <= j < d1.len() && #[trigger] turns_into(board, piece, spins, index_pos(d1[j] as int), index_pos(i), g);
                        if j < d0.len() {
                            assert(d0[j] == d1[j]);
                            assert(turned_from(board, piece, spins, d0, i, g));
                        }
                    }
                    if turned_from(board, piece, spins, d0, i, g) {
                        let j = choose|j: int| 0 <= j < d0.len() && #[trigger] turns_into(board, piece, spins, index_pos(d0[j] as int), index_pos(i), g);
                        assert(d1[j] == d0[j]);
                    }
                    if turns_into(board, piece, spins, index_pos(u as int), index_pos(i), g) {
                        assert(d1[head as int] == u);
                    }
                }
                assert forall|j: int, t: Pos| 0 <= j < head + 1 && #[trigger] edge(board, piece, index_pos(s.queue@[j] as int), t)
                    implies in_field(t) && s.visited[pos_index(t)] by {
                    if j < head {
                        assert(s.queue@[j] == q0[j]);
                        assert(in_field(t) && s0.visited[pos_index(t)]);
                        lemma_pos_index(t);
                    } else {
                        assert(s.queue@[j] == u);
                    }
                }
            }
            head += 1;
        }
        proof {
            let q = s.queue@;
            assert(q.subrange(0, head as int) =~= q);
            // every visited position has been processed
            assert forall|i: int| 0 <= i < 240 && s.visited[i] implies exists|j: int| 0 <= j < q.len() && q[j] == i as usize by {
                assert(q.contains(i as usize));
            }
            let set = |t: Pos| in_field(t) && s.visited[pos_index(t)];
            assert forall|a: Pos, c: Pos| set(a) && #[trigger] edge(board, piece, a, c) implies set(c) by {
                lemma_pos_index(a);
                let j = choose|j: int| 0 <= j < q.len() && q[j] == pos_index(a) as usize;
                assert(index_pos(q[j] as int) == a);
                assert(edge(board, piece, index_pos(q[j] as int), c));
            }
            assert forall|i: int| 0 <= i < 240 implies (#[trigger] s.visited[i] <==> reachable(board, piece, index_pos(i))) by {
                lemma_index_pos(i);
                if reachable(board, piece, index_pos(i)) {
                    let path = choose|path: Seq<Pos>| #[trigger] crate::reach::is_path(board, piece, path) && path.last() == index_pos(i);
                    assert(fits(board, piece, spawn_pos()));
                    assert(set(spawn_pos()));
                    lemma_reach_closed(board, piece, set, index_pos(i));
                }
            }
            assert forall|i: int| 0 <= i < 240 implies (#[trigger] s.plain[i] <==> ((i == spawn_index() && fits(board, piece, spawn_pos()))
                || exists|u: Pos| #[trigger] reachable(board, piece, u) && shift_edge(board, piece, u, index_pos(i)))) by {
                if shifted_from(board, piece, q, i) {
                    let j = choose|j: int| 0 <= j < q.len() && #[trigger] shift_edge(board, piece, index_pos(q[j] as int), index_pos(i));
                    assert(s.visited[q[j] as int]) by { assert(q.contains(q[j])); }
                    assert(reachable(board, piece, index_pos(q[j] as int)));
                }
                if exists|u: Pos| #[trigger] reachable(board, piece, u) && shift_edge(board, piece, u, index_pos(i)) {
                    let u = choose|u: Pos| #[trigger] reachable(board, piece, u) && shift_edge(board, piece, u, index_pos(i));
                    lemma_reach_fits(board, piece, u);
                    lemma_pos_index(u);
                    if !s.visited[pos_index(u)] {
                        assert(set(spawn_pos()));
                        lemma_reach_closed(board, piece, set, u);
                    }
                    let j = choose|j: int| 0 <= j < q.len() && q[j] == pos_index(u) as usize;
                    assert(index_pos(q[j] as int) == u);
                    assert(shifted_from(board, piece, q, i));
                }
            }
            assert forall|i: int, g: int| 0 <= i < 240 && 0 <= g < 3 implies (#[trigger] s.spun[i * 3 + g] <==>
                exists|u: Pos| #[trigger] reachable(board, piece, u) && turns_into(board, piece, spins, u, index_pos(i), g)) by {
                if turned_from(board, piece, spins, q, i, g) {
                    let j = choose|j: int| 0 <= j < q.len() && #[trigger] turns_into(board, piece, spins, index_pos(q[j] as int), index_pos(i), g);
                    assert(s.visited[q[j] as int]) by { assert(q.contains(q[j])); }
                    assert(reachable(board, piece, index_pos(q[j] as int)));
                }
                if exists|u: Pos| #[trigger] reachable(board, piece, u) && turns_into(board, piece, spins, u, index_pos(i), g) {
                    let u = choose|u: Pos| #[trigger] reachable(board, piece, u) && turns_into(board, piece, spins, u, index_pos(i), g);
                    lemma_reach_fits(board, piece, u);
                    lemma_pos_index(u);
                    if !s.visited[pos_index(u)] {
                        assert(set(spawn_pos()));
                        lemma_reach_closed(board, piece, set, u);
                    }
                    let j = choose|j: int| 0 <= j < q.len() && q[j] == pos_index(u) as usize;
                    assert(index_pos(q[j] as int) == u);
                    assert(turned_from(board, piece, spins, q, i, g));
                }
            }
        }
        s
    }
}

} // verus!

verus! {

/// The spin state with index `g`.
pub open spec fn spin_of(g: int) -> Spin {
    crate::placement::spin_from_index(g)
}

/// Whether `m` is exactly the packing of its own fields, with its pivot in
/// the field.
pub open spec fn packed(m: Move) -> bool {
    &&& m == Move::pack(m.x_spec(), m.y_spec(), m.rot_spec(), m.piece_spec(), m.spin_spec())
    &&& 0 <= m.x_spec() < 10
    &&& 0 <= m.y_spec() < 6
}

/// The slot `0..720` of a placement: its rotation, row, column and spin.
pub open spec fn move_key(m: Move) -> int {
    ((rot_index(m.rot_spec()) * 6 + m.y_spec()) * 10 + m.x_spec()) * 3 + spin_index(m.spin_spec())
}

pub(crate) proof fn lemma_move_key(m1: Move, m2: Move)
    requires
        packed(m1),
        packed(m2),
        m1.piece_spec() == m2.piece_spec(),
    ensures
        0 <= move_key(m1) < 720,
        move_key(m1) == move_key(m2) ==> m1 == m2,
{
    let r1 = rot_index(m1.rot_spec());
    let r2 = rot_index(m2.rot_spec());
    let s1 = spin_index(m1.spin_spec());
    let s2 = spin_index(m2.spin_spec());
    assert(0 <= move_key(m1) < 720) by (nonlinear_arith)
        requires
            move_key(m1) == ((r1 * 6 + m1.y_spec()) * 10 + m1.x_spec()) * 3 + s1,
            0 <= r1 < 4, 0 <= s1 < 3, 0 <= m1.x_spec() < 10, 0 <= m1.y_spec() < 6;
    if move_key(m1) == move_key(m2) {
        assert(r1 == r2 && s1 == s2 && m1.x_spec() == m2.x_spec() && m1.y_spec() == m2.y_spec()) by (nonlinear_arith)
            requires
                ((r1 * 6 + m1.y_spec()) * 10 + m1.x_spec()) * 3 + s1 == ((r2 * 6 + m2.y_spec()) * 10 + m2.x_spec()) * 3 + s2,
                0 <= r1 < 4, 0 <= s1 < 3, 0 <= m1.x_spec() < 10, 0 <= m1.y_spec() < 6,
                0 <= r2 < 4, 0 <= s2 < 3, 0 <= m2.x_spec() < 10, 0 <= m2.y_spec() < 6;
        assert(m1.rot_spec() == rot_from_index(r1));
        assert(m2.rot_spec() == rot_from_index(r2));
        assert(m1.spin_spec() == m2.spin_spec());
    }
}

/// Canonical placements built from in-field packings are packed.
pub(crate) proof fn lemma_canonical_packed(x: int, y: int, r: Rotation, p: Piece, tag: Spin)
    requires
        Move::pack(x, y, r, p, tag).is_placement(),
        0 <= x < 10,
        0 <= y < 6,
    ensures
        packed(Move::pack(x, y, r, p, tag).canonical_move()),
        Move::pack(x, y, r, p, tag).canonical_move().piece_spec() == p,
        Move::pack(x, y, r, p, tag).canonical_move().is_placement(),
{
    let m = Move::pack(x, y, r, p, tag);
    Move::lemma_pack(x, y, r, p, tag);
    crate::placement::lemma_canonical_move(m);
    let c = m.canonical_move();
    if crate::piece::is_canonical_spec(p, r) {
    } else {
        let o = canonical_offset(p, r);
        assert(m.cell_at(0).0 >= 0 && m.cell_at(1).0 >= 0 && m.cell_at(2).0 >= 0 && m.cell_at(3).0 >= 0);
        assert(m.cell_at(0).1 >= 0 && m.cell_at(1).1 >= 0 && m.cell_at(2).1 >= 0 && m.cell_at(3).1 >= 0);
        assert(crate::placement::covers_nonneg(p, r, x, y));
        crate::placement::lemma_canonical_nonneg(p, r, x, y);
        assert(o.0 <= 0);
        Move::lemma_pack(x + o.0, y + o.1, crate::piece::canonical_spec(p, r), p, tag);
    }
}

/// Whether the rows above `y` leave room for the canonical form of a
/// placement of `piece` in rotation `r`.
pub(crate) fn canonical_row_ok(piece: Piece, r: Rotation, y: usize) -> (ok: bool)
    requires
        y < 6,
    ensures
        ok == (y + canonical_offset(piece, r).1 < 6),
{
    match (piece, r) {
        (Piece::I, Rotation::West) => y + 1 < 6,
        _ => true,
    }
}

/// The slot of a packed placement.
pub(crate) fn key_of(m: Move) -> (k: usize)
    requires
        packed(m),
        m.is_valid(),
    ensures
        k == move_key(m),
        k < 720,
{
    proof {
        lemma_move_key(m, m);
    }
    let g: usize = match m.spin() {
        Spin::NoSpin => 0,
        Spin::Mini => 1,
        Spin::Full => 2,
    };
    ((m.rot().index() * 6 + m.y()) * 10 + m.x()) * 3 + g
}

/// Whether move generation owes a placement at position `i` with spin state
/// index `g`.
pub open spec fn owed(b: Board, p: Piece, spins: Spins, i: int, g: int) -> bool {
    let t = index_pos(i);
    &&& reachable(b, p, t)
    &&& landed_at(b, p, t)
    &&& arrives_with(b, p, spins, t, spin_of(g))
    &&& Move::pack(t.0, t.1, t.2, p, spin_of(g)).is_placement()
}

/// The placement owed at position `i` with spin state index `g`.
pub open spec fn owed_move(p: Piece, i: int, g: int) -> Move {
    let t = index_pos(i);
    Move::pack(t.0, t.1, t.2, p, spin_of(g)).canonical_move()
}

/// The placements in `moves` are distinct, all generated, and, unless the
/// buffer filled up, every generated placement is among them.
pub open spec fn generated_exactly(b: Board, p: Piece, spins: Spins, moves: Seq<Move>) -> bool {
    &&& moves.len() <= MAX_MOVES
    &&& moves.no_duplicates()
    &&& forall|k: int| 0 <= k < moves.len() ==> #[trigger] is_generated(b, p, spins, moves[k])
    &&& moves.len() < MAX_MOVES ==> forall|m: Move| #[trigger] is_generated(b, p, spins, m) ==> moves.contains(m)
}

} // verus!

verus! {

/// What `Search::run` establishes about its result.
spec fn search_done(s: Search, b: Board, p: Piece, spins: Spins) -> bool {
    &&& forall|i: int| 0 <= i < 240 ==> (#[trigger] s.visited[i] <==> reachable(b, p, index_pos(i)))
    &&& forall|i: int| 0 <= i < 240 ==> (#[trigger] s.plain[i] <==> ((i == spawn_index() && fits(b, p, spawn_pos()))
        || exists|u: Pos| #[trigger] reachable(b, p, u) && shift_edge(b, p, u, index_pos(i))))
    &&& forall|i: int, g: int| 0 <= i < 240 && 0 <= g < 3 ==> (#[trigger] s.spun[i * 3 + g] <==>
        exists|u: Pos| #[trigger] reachable(b, p, u) && turns_into(b, p, spins, u, index_pos(i), g))
}

/// The search's flags decide which placements are owed.
proof fn lemma_owed(s: Search, b: Board, p: Piece, spins: Spins, i: int, g: int)
    requires
        search_done(s, b, p, spins),
        0 <= i < 240,
        0 <= g < 3,
    ensures
        owed(b, p, spins, i, g) == (s.visited[i] && landed_at(b, p, index_pos(i))
            && ((g == 0 && s.plain[i]) || s.spun[i * 3 + g])
            && index_pos(i).1 + canonical_offset(p, index_pos(i).2).1 < 6),
{
    let t = index_pos(i);
    lemma_index_pos(i);
    lemma_pos_index(spawn_pos());
    let tag = spin_of(g);
    let m = Move::pack(t.0, t.1, t.2, p, tag);
    Move::lemma_pack(t.0, t.1, t.2, p, tag);
    lemma_piece_cells_bounded(p, t.2);
    if fits(b, p, t) {
        let c = piece_cells_spec(p, t.2);
        assert(m.cell_at(0) == (t.0 + c[0].0, t.1 + c[0].1));
        assert(m.cells_nonneg());
    }
    assert(spin_index(tag) == g);
    // a turn with spin state `tag` is a turn with spin index `g`
    assert((exists|u: Pos, dir: int, k: int| reachable(b, p, u) && #[trigger] rot_edge_with(b, p, u, dir, t, k)
        && rotation_spin(b, p, spins, t, k, dir) == tag) <==> (exists|u: Pos| #[trigger] reachable(b, p, u)
        && turns_into(b, p, spins, u, t, g))) by {
        if exists|u: Pos, dir: int, k: int| reachable(b, p, u) && #[trigger] rot_edge_with(b, p, u, dir, t, k)
            && rotation_spin(b, p, spins, t, k, dir) == tag {
            let (u, dir, k) = choose|u: Pos, dir: int, k: int| reachable(b, p, u) && #[trigger] rot_edge_with(b, p, u, dir, t, k)
                && rotation_spin(b, p, spins, t, k, dir) == tag;
            assert(turns_into(b, p, spins, u, t, g));
        }
        if exists|u: Pos| #[trigger] reachable(b, p, u) && turns_into(b, p, spins, u, t, g) {
            let u = choose|u: Pos| #[trigger] reachable(b, p, u) && turns_into(b, p, spins, u, t, g);
            let (dir, k) = choose|dir: int, k: int| #[trigger] rot_edge_with(b, p, u, dir, t, k) && spin_index(rotation_spin(b, p, spins, t, k, dir)) == g;
            let sp = rotation_spin(b, p, spins, t, k, dir);
            assert(sp == tag);
        }
    }
    assert(s.spun[i * 3 + g] == exists|u: Pos| #[trigger] reachable(b, p, u) && turns_into(b, p, spins, u, t, g));
    assert((tag == Spin::NoSpin) == (g == 0));
}

/// The bookkeeping of the emission: the placements held are generated,
/// packed and pairwise distinct in slot, and `emitted` marks exactly their
/// slots.
spec fn emit_inv(moves: Seq<Move>, emitted: Seq<bool>, b: Board, p: Piece, spins: Spins) -> bool {
    &&& emitted.len() == 720
    &&& moves.len() <= MAX_MOVES
    &&& forall|k: int| 0 <= k < moves.len() ==> is_generated(b, p, spins, #[trigger] moves[k])
    &&& forall|k: int| 0 <= k < moves.len() ==> packed(#[trigger] moves[k]) && moves[k].piece_spec() == p
        && moves[k].is_valid()
    &&& forall|k1: int, k2: int| 0 <= k1 < k2 < moves.len() ==> move_key(#[trigger] moves[k1]) != move_key(#[trigger] moves[k2])
    &&& forall|key: int| 0 <= key < 720 ==> (#[trigger] emitted[key] <==> exists|k: int| 0 <= k < moves.len() && move_key(#[trigger] moves[k]) == key)
}

/// Append `m` unless its slot is taken or the buffer is full.
fn emit(out: &mut MoveBuffer, emitted: &mut [bool; 720], m: Move, Ghost(b): Ghost<Board>, Ghost(p): Ghost<Piece>, Ghost(spins): Ghost<Spins>)
    requires
        emit_inv(old(out)@, old(emitted)@, b, p, spins),
        is_generated(b, p, spins, m),
        packed(m),
        m.piece_spec() == p,
        m.is_valid(),
    ensures
        emit_inv(final(out)@, final(emitted)@, b, p, spins),
        final(out)@.len() >= old(out)@.len(),
        forall|key: int| 0 <= key < 720 && old(emitted)@[key] ==> #[trigger] final(emitted)@[key],
        final(out)@.len() < MAX_MOVES ==> final(emitted)@[move_key(m)],
{
    let key = key_of(m);
    if !emitted[key] && out.len() < MAX_MOVES {
        let ghost before = out@;
        let ghost e0 = emitted@;
        proof {
            assert forall|k: int| 0 <= k < before.len() implies move_key(#[trigger] before[k]) != key by {
                if move_key(before[k]) == key {
                    assert(exists|k2: int| 0 <= k2 < before.len() && move_key(#[trigger] before[k2]) == key);
                }
            }
        }
        emitted[key] = true;
        out.push(m);
        proof {
            let after = out@;
            assert(after[before.len() as int] == m);
            assert forall|k: int| 0 <= k < after.len() implies is_generated(b, p, spins, #[trigger] after[k]) by {
                if k < before.len() {
                    assert(after[k] == before[k]);
                }
            }
            assert forall|k: int| 0 <= k < after.len() implies packed(#[trigger] after[k]) && after[k].piece_spec() == p
                && after[k].is_valid() by {
                if k < before.len() {
                    assert(after[k] == before[k]);
                }
            }
            assert forall|k1: int, k2: int| 0 <= k1 < k2 < after.len() implies move_key(#[trigger] after[k1]) != move_key(#[trigger] after[k2]) by {
                assert(after[k1] == before[k1]);
                if k2 < before.len() {
                    assert(after[k2] == before[k2]);
                }
            }
            assert forall|key2: int| 0 <= key2 < 720 implies (#[trigger] emitted@[key2] <==> exists|k: int| 0 <= k < after.len() && move_key(#[trigger] after[k]) == key2) by {
                if exists|k: int| 0 <= k < after.len() && move_key(#[trigger] after[k]) == key2 {
                    let k = choose|k: int| 0 <= k < after.len() && move_key(#[trigger] after[k]) == key2;
                    if k < before.len() {
                        assert(after[k] == before[k]);
                    }
                }
                if key2 != key && e0[key2] {
                    let k = choose|k: int| 0 <= k < before.len() && move_key(#[trigger] before[k]) == key2;
                    assert(after[k] == before[k]);
                }
            }
        }
    }
}

/// The placements owed at position `i`, in spin order.
fn emit_position(s: &Search, map: &CollisionMap, board: Board, piece: Piece, spins: Spins, i: usize,
    out: &mut MoveBuffer, emitted: &mut [bool; 720])
    requires
        i < 240,
        map_of(*map, board, piece),
        search_done(*s, board, piece, spins),
        emit_inv(old(out)@, old(emitted)@, board, piece, spins),
    ensures
        emit_inv(final(out)@, final(emitted)@, board, piece, spins),
        final(out)@.len() >= old(out)@.len(),
        forall|key: int| 0 <= key < 720 && old(emitted)@[key] ==> #[trigger] final(emitted)@[key],
        final(out)@.len() < MAX_MOVES ==> forall|h: int| 0 <= h < 3 && #[trigger] owed(board, piece, spins, i as int, h)
            ==> final(emitted)@[move_key(owed_move(piece, i as int, h))],
{
    let x = i % 10;
    let y = (i / 10) % 6;
    let r = Rotation::from((i / 60) as u8);
    proof {
        lemma_index_pos(i as int);
        assert(index_pos(i as int) == (x as int, y as int, r));
    }
    let ok = s.visited[i] && landed_at_exec(map, Ghost(board), Ghost(piece), x, y, r) && canonical_row_ok(piece, r, y);
    let mut g: usize = 0;
    while g < 3
        invariant
            g <= 3,
            i < 240,
            index_pos(i as int) == (x as int, y as int, r),
            x < 10,
            y < 6,
            ok == (s.visited[i as int] && landed_at(board, piece, index_pos(i as int))
                && index_pos(i as int).1 + canonical_offset(piece, index_pos(i as int).2).1 < 6),
            search_done(*s, board, piece, spins),
            emit_inv(out@, emitted@, board, piece, spins),
            out@.len() >= old(out)@.len(),
            forall|key: int| 0 <= key < 720 && old(emitted)@[key] ==> #[trigger] emitted@[key],
            out@.len() < MAX_MOVES ==> forall|h: int| 0 <= h < g && #[trigger] owed(board, piece, spins, i as int, h)
                ==> emitted@[move_key(owed_move(piece, i as int, h))],
        decreases 3 - g,
    {
        proof {
            lemma_owed(*s, board, piece, spins, i as int, g as int);
        }
        let ghost e0 = emitted@;
        let ghost len0 = out@.len();
        if ok && ((g == 0 && s.plain[i]) || s.spun[i * 3 + g]) {
            let tag = match g {
                0 => Spin::NoSpin,
                1 => Spin::Mini,
                _ => Spin::Full,
            };
            let m0 = Move::new(x, y, r, piece, tag);
            proof {
                crate::placement::lemma_placement_canonicalizable(m0);
            }
            let m = m0.canonicalize();
            proof {
                assert(tag == spin_of(g as int));
                assert(owed(board, piece, spins, i as int, g as int));
                lemma_canonical_packed(x as int, y as int, r, piece, tag);
                assert(m == owed_move(piece, i as int, g as int));
                let t = index_pos(i as int);
                assert(Move::pack(t.0, t.1, t.2, piece, tag).canonical_move() == m);
                assert(is_generated(board, piece, spins, m));
            }
            emit(out, emitted, m, Ghost(board), Ghost(piece), Ghost(spins));
        }
        proof {
            assert forall|h: int| 0 <= h < g + 1 && #[trigger] owed(board, piece, spins, i as int, h) && out@.len() < MAX_MOVES
                implies emitted@[move_key(owed_move(piece, i as int, h))] by {
                lemma_index_pos(i as int);
                let t = index_pos(i as int);
                lemma_canonical_packed(t.0, t.1, t.2, piece, spin_of(h));
                lemma_move_key(owed_move(piece, i as int, h), owed_move(piece, i as int, h));
                if h < g {
                    assert(len0 <= out@.len());
                    assert(e0[move_key(owed_move(piece, i as int, h))]);
                }
            }
        }
        g += 1;
    }
}

/// 'Global' mode move generation for the piece with index `PIECE`.
pub fn movegen_inner<const PIECE: u8>(board: Board, spins: Spins, out: &mut MoveBuffer)
    requires
        PIECE < 7,
    ensures
        generated_exactly(board, piece_from_index(PIECE as int), spins, final(out)@),
{
    let piece = Piece::from_index(PIECE);
    let map = CollisionMap::new(board, piece);
    let s = Search::run(&map, board, piece, spins);
    out.clear();
    let mut emitted = [false; 720];
    proof {
        assert forall|key: int| 0 <= key < 720 implies (#[trigger] emitted@[key] <==> exists|k: int| 0 <= k < out@.len() && move_key(#[trigger] out@[k]) == key) by {
        }
    }
    let mut i: usize = 0;
    while i < 240
        invariant
            i <= 240,
            piece == piece_from_index(PIECE as int),
            map_of(map, board, piece),
            search_done(s, board, piece, spins),
            emit_inv(out@, emitted@, board, piece, spins),
            out@.len() < MAX_MOVES ==> forall|j: int, g: int| 0 <= j < i && 0 <= g < 3 && #[trigger] owed(board, piece, spins, j, g)
                ==> emitted@[move_key(owed_move(piece, j, g))],
        decreases 240 - i,
    {
        let ghost e0 = emitted@;
        emit_position(&s, &map, board, piece, spins, i, out, &mut emitted);
        proof {
            assert forall|j: int, g: int| 0 <= j < i + 1 && 0 <= g < 3 && #[trigger] owed(board, piece, spins, j, g) && out@.len() < MAX_MOVES
                implies emitted@[move_key(owed_move(piece, j, g))] by {
                lemma_index_pos(j);
                let t = index_pos(j);
                lemma_canonical_packed(t.0, t.1, t.2, piece, spin_of(g));
                lemma_move_key(owed_move(piece, j, g), owed_move(piece, j, g));
                if j < i {
                    assert(e0[move_key(owed_move(piece, j, g))]);
                }
            }
        }
        i += 1;
    }
    proof {
        let moves = out@;
        assert(moves.no_duplicates()) by {
            assert forall|k1: int, k2: int| 0 <= k1 < moves.len() && 0 <= k2 < moves.len() && k1 != k2 implies moves[k1] != moves[k2] by {
                if k1 < k2 {
                    assert(move_key(moves[k1]) != move_key(moves[k2]));
                } else {
                    assert(move_key(moves[k2]) != move_key(moves[k1]));
                }
            }
        }
        if moves.len() < MAX_MOVES {
            assert forall|m: Move| #[trigger] is_generated(board, piece, spins, m) implies moves.contains(m) by {
                let (x, y, r, tag) = choose|x: int, y: int, r: Rotation, tag: Spin| {
                    &&& #[trigger] reachable(board, piece, (x, y, r))
                    &&& landed_at(board, piece, (x, y, r))
                    &&& arrives_with(board, piece, spins, (x, y, r), tag)
                    &&& Move::pack(x, y, r, piece, tag).is_placement()
                    &&& m == #[trigger] Move::pack(x, y, r, piece, tag).canonical_move()
                };
                let t = (x, y, r);
                lemma_reach_fits(board, piece, t);
                lemma_pos_index(t);
                let j = pos_index(t);
                let g = spin_index(tag);
                assert(spin_of(g) == tag);
                assert(owed(board, piece, spins, j, g));
                assert(owed_move(piece, j, g) == m);
                lemma_canonical_packed(x, y, r, piece, tag);
                lemma_move_key(m, m);
                let key = move_key(m);
                assert(emitted@[key]);
                let k = choose|k: int| 0 <= k < moves.len() && move_key(#[trigger] moves[k]) == key;
                lemma_move_key(moves[k], m);
                assert(moves[k] == m);
            }
        }
    }
}

} // verus!

verus! {

/// 'Global' mode move generation: every placement of `piece` reachable on
/// `board` by SRS shifts, soft drops and rotations from the spawn position.
///
/// Spin detection depends on `spins`: with `Spins::NoSpins` nothing is a
/// spin; with `Spins::T` a T whose last input is a rotation is a spin when
/// three of the four corners diagonal to its center are occupied (full when
/// both front corners are, otherwise mini; the last kick of a quarter turn
/// always makes it full); with `Spins::All`, additionally an immobile piece
/// entered by a rotation is at least a mini. The floor and walls count as
/// occupied. The same position reached with and without a spin gives two
/// distinct placements.
pub fn movegen(board: Board, piece: Piece, spins: Spins, out: &mut MoveBuffer)
    ensures
        generated_exactly(board, piece, spins, final(out)@),
{
    match piece {
        Piece::T => movegen_inner::<0>(board, spins, out),
        Piece::I => movegen_inner::<1>(board, spins, out),
        Piece::J => movegen_inner::<2>(board, spins, out),
        Piece::L => movegen_inner::<3>(board, spins, out),
        Piece::O => movegen_inner::<4>(board, spins, out),
        Piece::S => movegen_inner::<5>(board, spins, out),
        Piece::Z => movegen_inner::<6>(board, spins, out),
    }
}

} // verus!
