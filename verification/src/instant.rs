use vstd::prelude::*;
use crate::board::Board;
use crate::buffer::MoveBuffer;
use crate::collision_map::{CollisionMap, collides_spec, solid};
use crate::data::{lemma_piece_cells_bounded, piece_cells_spec};
use crate::global::{
    canonical_row_ok, fits_at, in_field, index_pos, key_of, lemma_canonical_packed, lemma_index_pos, lemma_move_key,
    lemma_pos_index, map_of, move_key, packed, pos_index, rotate,
};
use crate::piece::Piece;
use crate::placement::{Move, canonical_offset};
use crate::reach::{
    Pos, arrives_with, fits, is_generated, landed_at, lemma_distinct_below, lemma_reach_spawn, lemma_reach_step, lemma_rotation_fits,
    reachable, rot_edge, rot_edge_with, rot_target, rotation_result, shift_edge, spawn_pos, turn, SPAWN_X, SPAWN_Y,
};
use crate::spin::Spins;
use crate::rotation::{Rotation, rot_index, rot_from_index};
use crate::spin::Spin;

verus! {

/// Where `p` comes to rest falling from `t`: one row lower for as long as
/// it fits there.
pub open spec fn drop_pos(b: Board, p: Piece, t: Pos) -> Pos
    decreases t.1,
{
    if t.1 > 0 && fits(b, p, (t.0, t.1 - 1, t.2)) {
        drop_pos(b, p, (t.0, t.1 - 1, t.2))
    } else {
        t
    }
}

/// Whether one input followed by the fall moves `p` from `s` to `t`: a
/// shift left or right, or a turn, to a position where it fits, then down
/// as far as it goes.
pub open spec fn instant_edge(b: Board, p: Piece, s: Pos, t: Pos) -> bool {
    ||| (fits(b, p, (s.0 - 1, s.1, s.2)) && t == drop_pos(b, p, (s.0 - 1, s.1, s.2)))
    ||| (fits(b, p, (s.0 + 1, s.1, s.2)) && t == drop_pos(b, p, (s.0 + 1, s.1, s.2)))
    ||| (rot_target(b, p, s, 1) is Some && t == drop_pos(b, p, rot_target(b, p, s, 1)->0))
    ||| (rot_target(b, p, s, 2) is Some && t == drop_pos(b, p, rot_target(b, p, s, 2)->0))
    ||| (rot_target(b, p, s, 3) is Some && t == drop_pos(b, p, rot_target(b, p, s, 3)->0))
}

/// Whether `path` starts where the piece falls to from the spawn position
/// and moves by single inputs, each followed by the fall.
pub open spec fn is_instant_path(b: Board, p: Piece, path: Seq<Pos>) -> bool {
    &&& path.len() > 0
    &&& fits(b, p, spawn_pos())
    &&& path[0] == drop_pos(b, p, spawn_pos())
    &&& forall|i: int| 0 <= i < path.len() - 1 ==> #[trigger] instant_edge(b, p, path[i], path[i + 1])
}

/// Whether `p` can reach `t` under infinite gravity.
pub open spec fn instant_reachable(b: Board, p: Piece, t: Pos) -> bool {
    exists|path: Seq<Pos>| #[trigger] is_instant_path(b, p, path) && path.last() == t
}

/// Whether `m` is a placement that instant move generation owes for `p` on
/// `b`: the canonical form of a position reachable under infinite gravity,
/// without spin, provided that canonical form lies in the field.
pub open spec fn is_instant_generated(b: Board, p: Piece, m: Move) -> bool {
    exists|x: int, y: int, r: Rotation| {
        &&& #[trigger] instant_reachable(b, p, (x, y, r))
        &&& Move::pack(x, y, r, p, Spin::NoSpin).is_placement()
        &&& m == #[trigger] Move::pack(x, y, r, p, Spin::NoSpin).canonical_move()
    }
}

/// The placements in `moves` are distinct and are exactly those instant
/// move generation owes.
pub open spec fn instant_exactly(b: Board, p: Piece, moves: Seq<Move>) -> bool {
    &&& moves.no_duplicates()
    &&& forall|k: int| 0 <= k < moves.len() ==> #[trigger] is_instant_generated(b, p, moves[k])
    &&& forall|m: Move| #[trigger] is_instant_generated(b, p, m) ==> moves.contains(m)
}

/// A piece that fits falls to a position where it fits and rests.
pub proof fn lemma_drop(b: Board, p: Piece, t: Pos)
    requires
        fits(b, p, t),
    ensures
        fits(b, p, drop_pos(b, p, t)),
        landed_at(b, p, drop_pos(b, p, t)),
        drop_pos(b, p, t).0 == t.0,
        drop_pos(b, p, t).2 == t.2,
        drop_pos(b, p, t).1 <= t.1,
    decreases t.1,
{
    if t.1 > 0 && fits(b, p, (t.0, t.1 - 1, t.2)) {
        lemma_drop(b, p, (t.0, t.1 - 1, t.2));
    } else {
        lemma_piece_cells_bounded(p, t.2);
        let c = piece_cells_spec(p, t.2);
        if t.1 == 0 {
            assert(solid(b, t.0 + c[0].0, t.1 - 1 + c[0].1));
        }
        assert(collides_spec(b, p, t.2, t.0, t.1 - 1));
    }
}

/// The position the piece falls to from the spawn position is reachable
/// when the spawn position fits.
pub proof fn lemma_instant_spawn(b: Board, p: Piece)
    requires
        fits(b, p, spawn_pos()),
    ensures
        instant_reachable(b, p, drop_pos(b, p, spawn_pos())),
{
    let path = seq![drop_pos(b, p, spawn_pos())];
    assert(is_instant_path(b, p, path));
}

/// A reachable position's successors are reachable.
pub proof fn lemma_instant_step(b: Board, p: Piece, s: Pos, t: Pos)
    requires
        instant_reachable(b, p, s),
        instant_edge(b, p, s, t),
    ensures
        instant_reachable(b, p, t),
{
    let path = choose|path: Seq<Pos>| #[trigger] is_instant_path(b, p, path) && path.last() == s;
    let q = path.push(t);
    assert forall|i: int| 0 <= i < q.len() - 1 implies #[trigger] instant_edge(b, p, q[i], q[i + 1]) by {
        if i < path.len() - 1 {
            assert(q[i] == path[i] && q[i + 1] == path[i + 1]);
        } else {
            assert(q[i] == s && q[i + 1] == t);
        }
    }
    assert(is_instant_path(b, p, q));
}

proof fn lemma_instant_path_closed(b: Board, p: Piece, set: spec_fn(Pos) -> bool, path: Seq<Pos>, i: int)
    requires
        set(drop_pos(b, p, spawn_pos())),
        forall|s: Pos, u: Pos| set(s) && #[trigger] instant_edge(b, p, s, u) ==> set(u),
        is_instant_path(b, p, path),
        0 <= i < path.len(),
    ensures
        set(path[i]),
    decreases i,
{
    if i > 0 {
        lemma_instant_path_closed(b, p, set, path, i - 1);
        assert(instant_edge(b, p, path[i - 1], path[(i - 1) + 1]));
    }
}

/// Every reachable position lies in a set that holds the start and is closed
/// under inputs.
pub proof fn lemma_instant_closed(b: Board, p: Piece, set: spec_fn(Pos) -> bool, t: Pos)
    requires
        set(drop_pos(b, p, spawn_pos())),
        forall|s: Pos, u: Pos| set(s) && #[trigger] instant_edge(b, p, s, u) ==> set(u),
        instant_reachable(b, p, t),
    ensures
        set(t),
{
    let path = choose|path: Seq<Pos>| #[trigger] is_instant_path(b, p, path) && path.last() == t;
    lemma_instant_path_closed(b, p, set, path, path.len() - 1);
}

/// Every position reachable under infinite gravity fits and rests.
pub proof fn lemma_instant_rests(b: Board, p: Piece, t: Pos)
    requires
        instant_reachable(b, p, t),
    ensures
        fits(b, p, t),
        landed_at(b, p, t),
{
    let path = choose|path: Seq<Pos>| #[trigger] is_instant_path(b, p, path) && path.last() == t;
    let i = path.len() - 1;
    if i == 0 {
        lemma_drop(b, p, spawn_pos());
    } else {
        let s = path[i - 1];
        assert(instant_edge(b, p, path[i - 1], path[(i - 1) + 1]));
        lemma_rotation_fits(b, p, s, 1);
        lemma_rotation_fits(b, p, s, 2);
        lemma_rotation_fits(b, p, s, 3);
        if fits(b, p, (s.0 - 1, s.1, s.2)) {
            lemma_drop(b, p, (s.0 - 1, s.1, s.2));
        }
        if fits(b, p, (s.0 + 1, s.1, s.2)) {
            lemma_drop(b, p, (s.0 + 1, s.1, s.2));
        }
        if rot_target(b, p, s, 1) is Some {
            lemma_drop(b, p, rot_target(b, p, s, 1)->0);
        }
        if rot_target(b, p, s, 2) is Some {
            lemma_drop(b, p, rot_target(b, p, s, 2)->0);
        }
        if rot_target(b, p, s, 3) is Some {
            lemma_drop(b, p, rot_target(b, p, s, 3)->0);
        }
    }
}

/// Falling from a reachable position reaches the resting position one soft
/// drop at a time; unless the piece did not move, the last soft drop is the
/// input it arrives with.
proof fn lemma_drop_reachable(b: Board, p: Piece, t: Pos)
    requires
        reachable(b, p, t),
        fits(b, p, t),
    ensures
        reachable(b, p, drop_pos(b, p, t)),
        drop_pos(b, p, t) == t || exists|s: Pos| #[trigger] reachable(b, p, s) && shift_edge(b, p, s, drop_pos(b, p, t)),
    decreases t.1,
{
    if t.1 > 0 && fits(b, p, (t.0, t.1 - 1, t.2)) {
        let below = (t.0, t.1 - 1, t.2);
        assert(shift_edge(b, p, t, below));
        lemma_reach_step(b, p, t, below);
        lemma_drop_reachable(b, p, below);
    }
}

/// Every position of an instant path is reachable with soft drops too, and
/// is entered without a spin.
proof fn lemma_instant_path_global(b: Board, p: Piece, path: Seq<Pos>, i: int)
    requires
        is_instant_path(b, p, path),
        0 <= i < path.len(),
    ensures
        reachable(b, p, path[i]),
        arrives_with(b, p, Spins::NoSpins, path[i], Spin::NoSpin),
    decreases i,
{
    if i == 0 {
        lemma_reach_spawn(b, p);
        lemma_drop_reachable(b, p, spawn_pos());
    } else {
        lemma_instant_path_global(b, p, path, i - 1);
        let s = path[i - 1];
        let t = path[i];
        assert(instant_edge(b, p, path[i - 1], path[(i - 1) + 1]));
        let left = (s.0 - 1, s.1, s.2);
        let right = (s.0 + 1, s.1, s.2);
        let c = if fits(b, p, left) && t == drop_pos(b, p, left) {
            left
        } else if fits(b, p, right) && t == drop_pos(b, p, right) {
            right
        } else if rot_target(b, p, s, 1) is Some && t == drop_pos(b, p, rot_target(b, p, s, 1)->0) {
            rot_target(b, p, s, 1)->0
        } else if rot_target(b, p, s, 2) is Some && t == drop_pos(b, p, rot_target(b, p, s, 2)->0) {
            rot_target(b, p, s, 2)->0
        } else {
            rot_target(b, p, s, 3)->0
        };
        lemma_rotation_fits(b, p, s, 1);
        lemma_rotation_fits(b, p, s, 2);
        lemma_rotation_fits(b, p, s, 3);
        assert(fits(b, p, c));
        if c == left || c == right {
            assert(shift_edge(b, p, s, c));
        } else {
            let d = if rot_target(b, p, s, 1) == Some(c) { 1int } else if rot_target(b, p, s, 2) == Some(c) { 2int } else { 3int };
            assert(rot_target(b, p, s, d) == Some(c));
            let v = rotation_result(b, p, s, d)->0;
            assert(rot_edge_with(b, p, s, d, c, v.2));
            assert(rot_edge(b, p, s, c));
        }
        lemma_reach_step(b, p, s, c);
        lemma_drop_reachable(b, p, c);
    }
}

/// Every placement instant move generation owes, global move generation
/// without spin detection owes too: infinite gravity only ever soft drops.
pub proof fn lemma_instant_within_global(b: Board, p: Piece, m: Move)
    requires
        is_instant_generated(b, p, m),
    ensures
        is_generated(b, p, Spins::NoSpins, m),
{
    let (x, y, r) = choose|x: int, y: int, r: Rotation| {
        &&& #[trigger] instant_reachable(b, p, (x, y, r))
        &&& Move::pack(x, y, r, p, Spin::NoSpin).is_placement()
        &&& m == #[trigger] Move::pack(x, y, r, p, Spin::NoSpin).canonical_move()
    };
    let t = (x, y, r);
    let path = choose|path: Seq<Pos>| #[trigger] is_instant_path(b, p, path) && path.last() == t;
    lemma_instant_path_global(b, p, path, path.len() - 1);
    lemma_instant_rests(b, p, t);
    assert(reachable(b, p, (x, y, r)) && landed_at(b, p, (x, y, r)) && arrives_with(b, p, Spins::NoSpins, (x, y, r), Spin::NoSpin)
        && Move::pack(x, y, r, p, Spin::NoSpin).is_placement() && m == Move::pack(x, y, r, p, Spin::NoSpin).canonical_move());
}

/// How far `p` falls from `(x, y)` in rotation `r`: the row it comes to
/// rest in.
fn drop_exec(map: &CollisionMap, Ghost(b): Ghost<Board>, Ghost(p): Ghost<Piece>, x: i32, y: i32, r: Rotation) -> (ny: i32)
    requires
        map_of(*map, b, p),
        fits(b, p, (x as int, y as int, r)),
    ensures
        drop_pos(b, p, (x as int, y as int, r)) == (x as int, ny as int, r),
{
    let mut ny = y;
    let mut more = y > 0 && fits_at(map, Ghost(b), Ghost(p), x, y - 1, r);
    while more
        invariant
            map_of(*map, b, p),
            0 <= ny <= y < 6,
            more == (ny > 0 && fits(b, p, (x as int, ny - 1, r))),
            drop_pos(b, p, (x as int, y as int, r)) == drop_pos(b, p, (x as int, ny as int, r)),
        decreases ny,
    {
        ny = ny - 1;
        more = ny > 0 && fits_at(map, Ghost(b), Ghost(p), x, ny - 1, r);
    }
    ny
}

/// The state of a breadth-first search over resting positions.
struct Walk {
    visited: [bool; 240],
    queue: Vec<usize>,
}

impl Walk {
    /// The queue holds each visited position once, and every visited
    /// position is reachable.
    spec fn ok(&self, b: Board, p: Piece) -> bool {
        &&& self.queue@.len() <= 240
        &&& self.queue@.no_duplicates()
        &&& forall|j: int| 0 <= j < self.queue@.len() ==> #[trigger] self.queue@[j] < 240
        &&& forall|i: int| 0 <= i < 240 ==> (#[trigger] self.visited[i] <==> self.queue@.contains(i as usize))
        &&& forall|i: int| 0 <= i < 240 && #[trigger] self.visited[i] ==> instant_reachable(b, p, index_pos(i))
    }

    /// Mark position `t` visited, queueing it when it is new.
    fn discover(&mut self, Ghost(b): Ghost<Board>, Ghost(p): Ghost<Piece>, t: usize)
        requires
            old(self).ok(b, p),
            t < 240,
            instant_reachable(b, p, index_pos(t as int)),
        ensures
            final(self).ok(b, p),
            final(self).visited@ == old(self).visited@.update(t as int, true),
            final(self).queue@.len() >= old(self).queue@.len(),
            forall|j: int| 0 <= j < old(self).queue@.len() ==> #[trigger] final(self).queue@[j] == old(self).queue@[j],
    {
        if !self.visited[t] {
            proof {
                assert forall|j: int| 0 <= j < self.queue@.len() implies #[trigger] self.queue@[j] != t by {
                    if self.queue@[j] == t {
                        assert(self.queue@.contains(t));
                    }
                }
            }
            let ghost q0 = self.queue@;
            self.visited[t] = true;
            self.queue.push(t);
            proof {
                let q = self.queue@;
                assert(q == q0.push(t));
                assert forall|a: int, c: int| 0 <= a < q.len() && 0 <= c < q.len() && a != c implies q[a] != q[c] by {
                    if a < q0.len() && c < q0.len() {
                        assert(q0[a] != q0[c]);
                    }
                }
                lemma_distinct_below(q, 240);
                assert forall|i: int| 0 <= i < 240 implies (#[trigger] self.visited[i] <==> q.contains(i as usize)) by {
                    if i != t {
                        if q.contains(i as usize) {
                            let j = choose|j: int| 0 <= j < q.len() && q[j] == i as usize;
                            if j < q0.len() {
                                assert(q0.contains(i as usize));
                            }
                        }
                        if q0.contains(i as usize) {
                            let j = choose|j: int| 0 <= j < q0.len() && q0[j] == i as usize;
                            assert(q[j] == i as usize);
                        }
                    } else {
                        assert(q[q0.len() as int] == t);
                    }
                }
            }
        } else {
            proof {
                assert(self.visited@ =~= self.visited@.update(t as int, true));
            }
        }
    }

    /// Let the piece fall from `(x, y, r)`, which one input from `u` leads
    /// to, and visit where it rests.
    fn follow(&mut self, map: &CollisionMap, Ghost(b): Ghost<Board>, Ghost(p): Ghost<Piece>, Ghost(u): Ghost<Pos>,
        x: i32, y: i32, r: Rotation)
        requires
            old(self).ok(b, p),
            map_of(*map, b, p),
            instant_reachable(b, p, u),
            fits(b, p, (x as int, y as int, r)),
            instant_edge(b, p, u, drop_pos(b, p, (x as int, y as int, r))),
        ensures
            final(self).ok(b, p),
            in_field(drop_pos(b, p, (x as int, y as int, r))),
            final(self).visited[pos_index(drop_pos(b, p, (x as int, y as int, r)))],
            forall|i: int| 0 <= i < 240 && old(self).visited[i] ==> #[trigger] final(self).visited[i],
            final(self).queue@.len() >= old(self).queue@.len(),
            forall|j: int| 0 <= j < old(self).queue@.len() ==> #[trigger] final(self).queue@[j] == old(self).queue@[j],
    {
        let ny = drop_exec(map, Ghost(b), Ghost(p), x, y, r);
        let ghost tp = (x as int, ny as int, r);
        proof {
            lemma_drop(b, p, (x as int, y as int, r));
            lemma_pos_index(tp);
            lemma_instant_step(b, p, u, tp);
        }
        let t = r.index() * 60 + (ny as usize) * 10 + x as usize;
        assert(t == pos_index(tp));
        self.discover(Ghost(b), Ghost(p), t);
    }

    /// Follow every input from position `u`.
    fn expand(&mut self, map: &CollisionMap, board: Board, piece: Piece, u: usize)
        requires
            old(self).ok(board, piece),
            map_of(*map, board, piece),
            u < 240,
            instant_reachable(board, piece, index_pos(u as int)),
        ensures
            final(self).ok(board, piece),
            forall|t: Pos| #[trigger] instant_edge(board, piece, index_pos(u as int), t) ==> in_field(t)
                && final(self).visited[pos_index(t)],
            forall|i: int| 0 <= i < 240 && old(self).visited[i] ==> #[trigger] final(self).visited[i],
            final(self).queue@.len() >= old(self).queue@.len(),
            forall|j: int| 0 <= j < old(self).queue@.len() ==> #[trigger] final(self).queue@[j] == old(self).queue@[j],
    {
        let ghost up = index_pos(u as int);
        let ghost s0 = *self;
        proof {
            lemma_index_pos(u as int);
            lemma_rotation_fits(board, piece, up, 1);
            lemma_rotation_fits(board, piece, up, 2);
            lemma_rotation_fits(board, piece, up, 3);
        }
        let x = (u % 10) as i32;
        let y = ((u / 10) % 6) as i32;
        let from = Rotation::from((u / 60) as u8);
        assert(up == (x as int, y as int, from));
        if fits_at(map, Ghost(board), Ghost(piece), x - 1, y, from) {
            self.follow(map, Ghost(board), Ghost(piece), Ghost(up), x - 1, y, from);
        }
        if fits_at(map, Ghost(board), Ghost(piece), x + 1, y, from) {
            self.follow(map, Ghost(board), Ghost(piece), Ghost(up), x + 1, y, from);
        }
        let mut dir: u8 = 1;
        while dir <= 3
            invariant
                1 <= dir <= 4,
                self.ok(board, piece),
                map_of(*map, board, piece),
                up == index_pos(u as int),
                up == (x as int, y as int, from),
                instant_reachable(board, piece, up),
                forall|d: int| 1 <= d <= 3 && (#[trigger] rot_target(board, piece, up, d)) is Some
                    ==> fits(board, piece, rot_target(board, piece, up, d)->0),
                fits(board, piece, (x - 1, y as int, from)) ==> in_field(drop_pos(board, piece, (x - 1, y as int, from)))
                    && self.visited[pos_index(drop_pos(board, piece, (x - 1, y as int, from)))],
                fits(board, piece, (x + 1, y as int, from)) ==> in_field(drop_pos(board, piece, (x + 1, y as int, from)))
                    && self.visited[pos_index(drop_pos(board, piece, (x + 1, y as int, from)))],
                forall|d: int| 1 <= d < dir && (#[trigger] rot_target(board, piece, up, d)) is Some ==>
                    in_field(drop_pos(board, piece, rot_target(board, piece, up, d)->0))
                    && self.visited[pos_index(drop_pos(board, piece, rot_target(board, piece, up, d)->0))],
                forall|i: int| 0 <= i < 240 && s0.visited[i] ==> #[trigger] self.visited[i],
                self.queue@.len() >= s0.queue@.len(),
                forall|j: int| 0 <= j < s0.queue@.len() ==> #[trigger] self.queue@[j] == s0.queue@[j],
            decreases 4 - dir,
        {
            let to = match dir {
                1 => from.cw(),
                2 => from.flip(),
                _ => from.ccw(),
            };
            assert(to == turn(up.2, dir as int));
            match rotate(map, Ghost(board), piece, x, y, from, to) {
                Some((nx, ny, k)) => {
                    let ghost c = (nx as int, ny as int, to);
                    assert(rot_target(board, piece, up, dir as int) == Some(c));
                    self.follow(map, Ghost(board), Ghost(piece), Ghost(up), nx, ny, to);
                },
                None => {
                    assert(rot_target(board, piece, up, dir as int) is None);
                },
            }
            dir += 1;
        }
        proof {
            assert(rot_target(board, piece, up, 1) is Some ==> in_field(drop_pos(board, piece, rot_target(board, piece, up, 1)->0))
                && self.visited[pos_index(drop_pos(board, piece, rot_target(board, piece, up, 1)->0))]);
            assert(rot_target(board, piece, up, 2) is Some ==> in_field(drop_pos(board, piece, rot_target(board, piece, up, 2)->0))
                && self.visited[pos_index(drop_pos(board, piece, rot_target(board, piece, up, 2)->0))]);
            assert(rot_target(board, piece, up, 3) is Some ==> in_field(drop_pos(board, piece, rot_target(board, piece, up, 3)->0))
                && self.visited[pos_index(drop_pos(board, piece, rot_target(board, piece, up, 3)->0))]);
        }
    }

    /// Breadth-first search over the positions `piece` reaches on `board`
    /// under infinite gravity.
    #[verifier::spinoff_prover]
    fn run(map: &CollisionMap, board: Board, piece: Piece) -> (w: Walk)
        requires
            map_of(*map, board, piece),
        ensures
            forall|i: int| 0 <= i < 240 ==> (#[trigger] w.visited[i] <==> instant_reachable(board, piece, index_pos(i))),
    {
        let mut w = Walk { visited: [false; 240], queue: Vec::new() };
        if fits_at(map, Ghost(board), Ghost(piece), SPAWN_X as i32, SPAWN_Y as i32, Rotation::North) {
            let ny = drop_exec(map, Ghost(board), Ghost(piece), SPAWN_X as i32, SPAWN_Y as i32, Rotation::North);
            let ghost tp = (SPAWN_X as int, ny as int, Rotation::North);
            proof {
                lemma_drop(board, piece, spawn_pos());
                lemma_pos_index(tp);
                lemma_instant_spawn(board, piece);
            }
            let t = (ny as usize) * 10 + SPAWN_X;
            assert(t == pos_index(tp));
            w.discover(Ghost(board), Ghost(piece), t);
        }
        let mut head: usize = 0;
        while head < w.queue.len()
            invariant
                w.ok(board, piece),
                map_of(*map, board, piece),
                head <= w.queue@.len(),
                forall|j: int, t: Pos| 0 <= j < head && #[trigger] instant_edge(board, piece, index_pos(w.queue@[j] as int), t)
                    ==> in_field(t) && w.visited[pos_index(t)],
                fits(board, piece, spawn_pos()) ==> in_field(drop_pos(board, piece, spawn_pos()))
                    && w.visited[pos_index(drop_pos(board, piece, spawn_pos()))],
            decreases 240 - head,
        {
            let u = w.queue[head];
            let ghost q0 = w.queue@;
            let ghost w0 = w;
            proof {
                assert(w.visited[u as int]) by {
                    assert(w.queue@.contains(u));
                }
            }
            w.expand(map, board, piece, u);
            proof {
                assert forall|j: int, t: Pos| 0 <= j < head + 1 && #[trigger] instant_edge(board, piece, index_pos(w.queue@[j] as int), t)
                    implies in_field(t) && w.visited[pos_index(t)] by {
                    if j < head {
                        assert(w.queue@[j] == q0[j]);
                        assert(in_field(t) && w0.visited[pos_index(t)]);
                        lemma_pos_index(t);
                    } else {
                        assert(w.queue@[j] == u);
                    }
                }
                if fits(board, piece, spawn_pos()) {
                    lemma_pos_index(drop_pos(board, piece, spawn_pos()));
                }
            }
            head += 1;
        }
        proof {
            let q = w.queue@;
            let set = |t: Pos| in_field(t) && w.visited[pos_index(t)];
            assert forall|a: Pos, c: Pos| set(a) && #[trigger] instant_edge(board, piece, a, c) implies set(c) by {
                lemma_pos_index(a);
                assert(q.contains(pos_index(a) as usize));
                let j = choose|j: int| 0 <= j < q.len() && q[j] == pos_index(a) as usize;
                assert(index_pos(q[j] as int) == a);
                assert(instant_edge(board, piece, index_pos(q[j] as int), c));
            }
            assert forall|i: int| 0 <= i < 240 implies (#[trigger] w.visited[i] <==> instant_reachable(board, piece, index_pos(i))) by {
                lemma_index_pos(i);
                if instant_reachable(board, piece, index_pos(i)) {
                    let path = choose|path: Seq<Pos>| #[trigger] is_instant_path(board, piece, path) && path.last() == index_pos(i);
                    assert(fits(board, piece, spawn_pos()));
                    assert(set(drop_pos(board, piece, spawn_pos())));
                    lemma_instant_closed(board, piece, set, index_pos(i));
                }
            }
        }
        w
    }
}

/// The bookkeeping of the emission: the placements held are owed, packed
/// and pairwise distinct in slot, and `seen` marks exactly their slots.
spec fn listed(moves: Seq<Move>, seen: Seq<bool>, b: Board, p: Piece) -> bool {
    &&& seen.len() == 720
    &&& forall|k: int| 0 <= k < moves.len() ==> is_instant_generated(b, p, #[trigger] moves[k])
    &&& forall|k: int| 0 <= k < moves.len() ==> packed(#[trigger] moves[k]) && moves[k].piece_spec() == p
        && moves[k].is_valid()
    &&& forall|k1: int, k2: int| 0 <= k1 < k2 < moves.len() ==> move_key(#[trigger] moves[k1]) != move_key(#[trigger] moves[k2])
    &&& forall|key: int| 0 <= key < 720 ==> (#[trigger] seen[key] <==> exists|k: int| 0 <= k < moves.len() && move_key(#[trigger] moves[k]) == key)
}

/// The placement owed for the position with index `i`, when there is one.
spec fn owed_at(b: Board, p: Piece, i: int) -> bool {
    let t = index_pos(i);
    instant_reachable(b, p, t) && Move::pack(t.0, t.1, t.2, p, Spin::NoSpin).is_placement()
}

/// The canonical placement of the position with index `i`.
spec fn owed_move_at(p: Piece, i: int) -> Move {
    let t = index_pos(i);
    Move::pack(t.0, t.1, t.2, p, Spin::NoSpin).canonical_move()
}

/// 'Instant' mode move generation: only the placements of `piece` reachable
/// on `board` with infinite gravity applied after every movement, the piece
/// appearing at the lowest point below the spawn position. Shifts left and
/// right and rotations (with SRS kicks) are the inputs; no placement is a
/// spin.
pub fn movegen(board: Board, piece: Piece, out: &mut MoveBuffer)
    ensures
        instant_exactly(board, piece, final(out)@),
{
    let map = CollisionMap::new(board, piece);
    let w = Walk::run(&map, board, piece);
    out.clear();
    let mut seen = [false; 720];
    let mut i: usize = 0;
    while i < 240
        invariant
            i <= 240,
            map_of(map, board, piece),
            forall|j: int| 0 <= j < 240 ==> (#[trigger] w.visited[j] <==> instant_reachable(board, piece, index_pos(j))),
            out@.len() <= i,
            listed(out@, seen@, board, piece),
            forall|j: int| 0 <= j < i && #[trigger] owed_at(board, piece, j) ==> seen@[move_key(owed_move_at(piece, j))],
        decreases 240 - i,
    {
        let x = i % 10;
        let y = (i / 10) % 6;
        let r = Rotation::from((i / 60) as u8);
        let ghost t = index_pos(i as int);
        proof {
            lemma_index_pos(i as int);
            assert(t == (x as int, y as int, r));
        }
        let ghost e0 = seen@;
        let ghost before = out@;
        if w.visited[i] && canonical_row_ok(piece, r, y) {
            let m0 = Move::new(x, y, r, piece, Spin::NoSpin);
            proof {
                lemma_instant_rests(board, piece, t);
                Move::lemma_pack(t.0, t.1, t.2, piece, Spin::NoSpin);
                lemma_piece_cells_bounded(piece, r);
                let c = piece_cells_spec(piece, r);
                assert(m0.cell_at(0) == (t.0 + c[0].0, t.1 + c[0].1));
                assert(m0.cells_nonneg());
                assert(owed_at(board, piece, i as int));
            }
            proof {
                crate::placement::lemma_placement_canonicalizable(m0);
            }
            let m = m0.canonicalize();
            proof {
                lemma_canonical_packed(x as int, y as int, r, piece, Spin::NoSpin);
                assert(m == owed_move_at(piece, i as int));
                assert(is_instant_generated(board, piece, m));
            }
            let key = key_of(m);
            if !seen[key] {
                proof {
                    assert forall|k: int| 0 <= k < before.len() implies move_key(#[trigger] before[k]) != key by {
                        if move_key(before[k]) == key {
                            assert(exists|k2: int| 0 <= k2 < before.len() && move_key(#[trigger] before[k2]) == key);
                        }
                    }
                }
                seen[key] = true;
                out.push(m);
                proof {
                    let after = out@;
                    assert(after[before.len() as int] == m);
                    assert forall|k: int| 0 <= k < after.len() implies is_instant_generated(board, piece, #[trigger] after[k]) by {
                        if k < before.len() {
                            assert(after[k] == before[k]);
                        }
                    }
                    assert forall|k: int| 0 <= k < after.len() implies packed(#[trigger] after[k]) && after[k].piece_spec() == piece
                        && after[k].is_valid() by {
                        if k < before.len() {
                            assert(after[k] == before[k]);
                        }
                    }
                    assert forall|k1: int, k2: int| 0 <= k1 < k2 < after.len() implies move_key(#[trigger] after[k1]) != move_key(#[trigger] after[k2]) by {
                        assert(after[k1] == before[k1]);
                        if k2 < before.len() {
                            assert(after[k2] == before[k2]);
                        }
                    }
                    assert forall|key2: int| 0 <= key2 < 720 implies (#[trigger] seen@[key2] <==> exists|k: int| 0 <= k < after.len() && move_key(#[trigger] after[k]) == key2) by {
                        if exists|k: int| 0 <= k < after.len() && move_key(#[trigger] after[k]) == key2 {
                            let k = choose|k: int| 0 <= k < after.len() && move_key(#[trigger] after[k]) == key2;
                            if k < before.len() {
                                assert(after[k] == before[k]);
                            }
                        }
                        if key2 != key && e0[key2] {
                            let k = choose|k: int| 0 <= k < before.len() && move_key(#[trigger] before[k]) == key2;
                            assert(after[k] == before[k]);
                        }
                    }
                }
            }
        }
        proof {
            assert forall|j: int| 0 <= j < i + 1 && #[trigger] owed_at(board, piece, j) implies seen@[move_key(owed_move_at(piece, j))] by {
                lemma_index_pos(j);
                let tj = index_pos(j);
                lemma_canonical_packed(tj.0, tj.1, tj.2, piece, Spin::NoSpin);
                lemma_move_key(owed_move_at(piece, j), owed_move_at(piece, j));
                if j < i {
                    assert(e0[move_key(owed_move_at(piece, j))]);
                } else {
                    lemma_instant_rests(board, piece, tj);
                    Move::lemma_pack(tj.0, tj.1, tj.2, piece, Spin::NoSpin);
                    assert(tj.1 + canonical_offset(piece, tj.2).1 < 6);
                }
            }
        }
        i += 1;
    }
    proof {
        let moves = out@;
        assert(moves.no_duplicates()) by {
            assert forall|k1: int, k2: int| 0 <= k1 < moves.len() && 0 <= k2 < moves.len() && k1 != k2 implies moves[k1] != moves[k2] by {
                if k1 < k2 {
                    assert(move_key(moves[k1]) != move_key(moves[k2]));
                } else {
                    assert(move_key(moves[k2]) != move_key(moves[k1]));
                }
            }
        }
        assert forall|m: Move| #[trigger] is_instant_generated(board, piece, m) implies moves.contains(m) by {
            let (x, y, r) = choose|x: int, y: int, r: Rotation| {
                &&& #[trigger] instant_reachable(board, piece, (x, y, r))
                &&& Move::pack(x, y, r, piece, Spin::NoSpin).is_placement()
                &&& m == #[trigger] Move::pack(x, y, r, piece, Spin::NoSpin).canonical_move()
            };
            let t = (x, y, r);
            lemma_instant_rests(board, piece, t);
            lemma_pos_index(t);
            let j = pos_index(t);
            assert(owed_at(board, piece, j));
            assert(owed_move_at(piece, j) == m);
            lemma_canonical_packed(x, y, r, piece, Spin::NoSpin);
            lemma_move_key(m, m);
            let key = move_key(m);
            assert(seen@[key]);
            let k = choose|k: int| 0 <= k < moves.len() && move_key(#[trigger] moves[k]) == key;
            lemma_move_key(moves[k], m);
            assert(moves[k] == m);
        }
    }
}

} // verus!
