use vstd::prelude::*;
use vstd::arithmetic::div_mod::{lemma_add_mod_noop, lemma_mod_add_multiples_vanish, lemma_small_mod};
use crate::board::{Board, kept_rows};
use crate::buffer::MoveBuffer;
use crate::collision_map::solid;
use crate::data::{piece_cells_spec, lemma_piece_cells_bounded};
use crate::global::{generated_exactly, movegen};
use crate::header::{bit, lemma_bits_equal};
use crate::piece::Piece;
use crate::placement::{Move, lemma_canonical_move};
use crate::queue::Queue;
use crate::reach::{is_generated, landed_at, reachable, arrives_with};
use crate::rotation::Rotation;
use crate::spin::{Spin, Spins};

verus! {

/// Whether `a` is the board `b` with the cells of `m` filled.
pub open spec fn is_applied(b: Board, m: Move, a: Board) -> bool {
    forall|cx: int, cy: int| #[trigger] a.cell(cx, cy) == (b.cell(cx, cy) || m.occupies(cx, cy))
}

/// Whether bit `y` of `mask` tells whether row `y` of `a` is filled in every
/// column.
pub open spec fn is_full_rows(a: Board, mask: u64) -> bool {
    forall|y: u64| y < 64 ==> #[trigger] bit(mask, y) == (forall|x: int| 0 <= x < 10 ==> #[trigger] a.cell(x, y as int))
}

/// Whether `r` is the board `a` with the rows of `mask` removed and the rows
/// above them moved down.
pub open spec fn is_without_rows(a: Board, mask: u64, r: Board) -> bool {
    forall|x: int, k: int| 0 <= x < 10 && 0 <= k < 64 ==> #[trigger] r.cell(x, k) == (k < kept_rows(a.0[x], mask, 64).len()
        && kept_rows(a.0[x], mask, 64)[k])
}

/// The board `b` with the cells of `m` filled.
pub open spec fn applied(b: Board, m: Move) -> Board {
    choose|a: Board| is_applied(b, m, a)
}

/// The rows of `a` that are filled in every column, as a mask.
pub open spec fn full_rows(a: Board) -> u64 {
    choose|mask: u64| is_full_rows(a, mask)
}

/// The board `a` with the rows of `mask` removed and the rows above them
/// moved down.
pub open spec fn without_rows(a: Board, mask: u64) -> Board {
    choose|r: Board| is_without_rows(a, mask, r)
}

/// The board after placing `m` on `b` and clearing the rows it completes.
pub open spec fn after_move(b: Board, m: Move) -> Board {
    let a = applied(b, m);
    without_rows(a, full_rows(a))
}

/// Whether the placement with packed bits `k` is one that move generation
/// (with T-spin detection) owes for `p` on `b`.
pub open spec fn gen_key(b: Board, p: Piece, k: int) -> bool {
    is_generated(b, p, Spins::T, Move::from_bits(k as u16))
}

/// `f(0) + f(1) + ... + f(n - 1)`.
pub open spec fn range_sum(f: spec_fn(int) -> int, n: nat) -> int
    decreases n,
{
    if n == 0 {
        0
    } else {
        range_sum(f, (n - 1) as nat) + f(n - 1)
    }
}

/// The number of placements move generation owes for `p` on `b`.
pub open spec fn generated_count(b: Board, p: Piece) -> int {
    range_sum(|k: int| if gen_key(b, p, k) { 1int } else { 0int }, 0x10000)
}

/// The number of placements in the game tree of depth `d` below `b` with the
/// pieces `q` to come: the placements of the first piece, plus, for each of
/// them, the count below the board it leaves with the rest of the pieces.
pub open spec fn perft_spec(b: Board, q: Seq<Piece>, d: nat) -> int
    decreases d, 0x10001int,
{
    if d == 0 || q.len() == 0 {
        0
    } else {
        perft_keys(b, q, d, 0x10000)
    }
}

/// The part of `perft_spec(b, q, d)` that comes from the placements whose
/// packed bits are below `k`.
pub open spec fn perft_keys(b: Board, q: Seq<Piece>, d: nat, k: nat) -> int
    decreases d, k,
{
    if d == 0 || q.len() == 0 || k == 0 {
        0
    } else {
        perft_keys(b, q, d, (k - 1) as nat) + if gen_key(b, q[0], k - 1) {
            1 + perft_spec(after_move(b, Move::from_bits((k - 1) as u16)), q.drop_first(), (d - 1) as nat)
        } else {
            0
        }
    }
}

/// Whether every board of the game tree of depth `d` below `b` has fewer
/// placements than a move buffer holds.
pub open spec fn perft_fits(b: Board, q: Seq<Piece>, d: nat) -> bool
    decreases d, 0x10001int,
{
    d == 0 || q.len() == 0 || (generated_count(b, q[0]) < 256 && fits_keys(b, q, d, 0x10000))
}

/// Whether the subtrees below the placements with packed bits below `k` fit.
pub open spec fn fits_keys(b: Board, q: Seq<Piece>, d: nat, k: nat) -> bool
    decreases d, k,
{
    if d == 0 || q.len() == 0 || k == 0 {
        true
    } else {
        &&& fits_keys(b, q, d, (k - 1) as nat)
        &&& gen_key(b, q[0], k - 1) ==> perft_fits(after_move(b, Move::from_bits((k - 1) as u16)), q.drop_first(), (d - 1) as nat)
    }
}

/// The packed bits of the placements in `s`.
pub open spec fn key_set(s: Seq<Move>) -> Set<int> {
    Set::new(|k: int| exists|j: int| 0 <= j < s.len() && (#[trigger] s[j]).bits() == k)
}

/// `f` on the keys in `ks`, zero elsewhere.
pub open spec fn restrict(f: spec_fn(int) -> int, ks: Set<int>) -> spec_fn(int) -> int {
    |k: int| if ks.contains(k) { f(k) } else { 0 }
}

/// The sum of `f` over the packed bits of the placements in `s`.
pub open spec fn seq_sum(s: Seq<Move>, f: spec_fn(int) -> int) -> int
    decreases s.len(),
{
    if s.len() == 0 {
        0
    } else {
        seq_sum(s.drop_last(), f) + f(s.last().bits() as int)
    }
}

proof fn lemma_range_sum_mono(f: spec_fn(int) -> int, g: spec_fn(int) -> int, n: nat)
    requires
        forall|k: int| 0 <= k < n ==> #[trigger] f(k) <= g(k),
    ensures
        range_sum(f, n) <= range_sum(g, n),
    decreases n,
{
    if n > 0 {
        lemma_range_sum_mono(f, g, (n - 1) as nat);
    }
}

proof fn lemma_range_sum_ext(f: spec_fn(int) -> int, g: spec_fn(int) -> int, n: nat)
    requires
        forall|k: int| 0 <= k < n ==> #[trigger] f(k) == g(k),
    ensures
        range_sum(f, n) == range_sum(g, n),
{
    lemma_range_sum_mono(f, g, n);
    lemma_range_sum_mono(g, f, n);
}

/// Adding a key `x` to the set adds `f(x)` to the restricted sum.
proof fn lemma_range_sum_insert(f: spec_fn(int) -> int, ks: Set<int>, x: int, n: nat)
    requires
        !ks.contains(x),
    ensures
        range_sum(restrict(f, ks.insert(x)), n) == range_sum(restrict(f, ks), n) + if 0 <= x < n { f(x) } else { 0 },
    decreases n,
{
    if n > 0 {
        lemma_range_sum_insert(f, ks, x, (n - 1) as nat);
    }
}

/// Over the empty set the restricted sum is zero.
proof fn lemma_range_sum_empty(f: spec_fn(int) -> int, n: nat)
    ensures
        range_sum(restrict(f, Set::empty()), n) == 0,
    decreases n,
{
    if n > 0 {
        lemma_range_sum_empty(f, (n - 1) as nat);
    }
}

/// Summing over a list of distinct placements is summing over their keys.
proof fn lemma_seq_sum_keys(s: Seq<Move>, f: spec_fn(int) -> int)
    requires
        s.no_duplicates(),
    ensures
        seq_sum(s, f) == range_sum(restrict(f, key_set(s)), 0x10000),
    decreases s.len(),
{
    if s.len() == 0 {
        assert(key_set(s) =~= Set::empty());
        lemma_range_sum_empty(f, 0x10000);
    } else {
        let t = s.drop_last();
        let x = s.last().bits() as int;
        assert(t.no_duplicates()) by {
            assert forall|i: int, j: int| 0 <= i < t.len() && 0 <= j < t.len() && i != j implies t[i] != t[j] by {
                assert(t[i] == s[i] && t[j] == s[j]);
            }
        }
        lemma_seq_sum_keys(t, f);
        assert(!key_set(t).contains(x)) by {
            if key_set(t).contains(x) {
                let j = choose|j: int| 0 <= j < t.len() && (#[trigger] t[j]).bits() == x;
                Move::lemma_bits(t[j], 0);
                Move::lemma_bits(s.last(), 0);
                assert(s[j] == s[s.len() - 1]);
            }
        }
        assert(key_set(s) =~= key_set(t).insert(x)) by {
            assert forall|k: int| key_set(s).contains(k) implies key_set(t).insert(x).contains(k) by {
                let j = choose|j: int| 0 <= j < s.len() && (#[trigger] s[j]).bits() == k;
                if j < s.len() - 1 {
                    assert(t[j] == s[j]);
                }
            }
            assert forall|k: int| key_set(t).insert(x).contains(k) implies key_set(s).contains(k) by {
                if k == x {
                    assert(s[s.len() - 1].bits() == k);
                } else {
                    let j = choose|j: int| 0 <= j < t.len() && (#[trigger] t[j]).bits() == k;
                    assert(s[j] == t[j]);
                }
            }
        }
        lemma_range_sum_insert(f, key_set(t), x, 0x10000);
    }
}

/// Adding one per placement adds the number of placements.
proof fn lemma_seq_sum_plus_one(s: Seq<Move>, f: spec_fn(int) -> int, g: spec_fn(int) -> int)
    requires
        forall|k: int| #[trigger] g(k) == 1 + f(k),
    ensures
        seq_sum(s, g) == s.len() + seq_sum(s, f),
    decreases s.len(),
{
    if s.len() > 0 {
        lemma_seq_sum_plus_one(s.drop_last(), f, g);
    }
}

/// `perft_keys` is a `range_sum`.
proof fn lemma_perft_keys_sum(b: Board, q: Seq<Piece>, d: nat, n: nat)
    requires
        d > 0,
        q.len() > 0,
    ensures
        perft_keys(b, q, d, n) == range_sum(|k: int| if gen_key(b, q[0], k) {
            1 + perft_spec(after_move(b, Move::from_bits(k as u16)), q.drop_first(), (d - 1) as nat)
        } else {
            0
        }, n),
    decreases n,
{
    if n > 0 {
        lemma_perft_keys_sum(b, q, d, (n - 1) as nat);
    }
}

/// A subtree below a generated placement fits when the whole tree does.
proof fn lemma_fits_keys(b: Board, q: Seq<Piece>, d: nat, n: nat, k: int)
    requires
        d > 0,
        q.len() > 0,
        fits_keys(b, q, d, n),
        0 <= k < n,
        gen_key(b, q[0], k),
    ensures
        perft_fits(after_move(b, Move::from_bits(k as u16)), q.drop_first(), (d - 1) as nat),
    decreases n,
{
    if k < n - 1 {
        lemma_fits_keys(b, q, d, (n - 1) as nat, k);
    }
}

/// At depth one, `perft_keys` counts the generated placements below `n`.
proof fn lemma_perft_keys_one(b: Board, q: Seq<Piece>, n: nat)
    requires
        q.len() > 0,
    ensures
        perft_keys(b, q, 1, n) == range_sum(|k: int| if gen_key(b, q[0], k) { 1int } else { 0int }, n),
    decreases n,
{
    if n > 0 {
        lemma_perft_keys_one(b, q, (n - 1) as nat);
        assert(perft_spec(after_move(b, Move::from_bits((n - 1) as u16)), q.drop_first(), 0) == 0);
    }
}

/// At depth one, perft counts the placements move generation owes for the
/// first piece.
pub proof fn lemma_perft_depth_one(b: Board, q: Seq<Piece>)
    requires
        q.len() > 0,
    ensures
        perft_spec(b, q, 1) == generated_count(b, q[0]),
{
    lemma_perft_keys_one(b, q, 0x10000);
}

/// Boards with the same cells are equal.
pub proof fn lemma_board_ext(a: Board, c: Board)
    requires
        forall|x: int, y: int| 0 <= x < 10 && 0 <= y < 64 ==> #[trigger] a.cell(x, y) == c.cell(x, y),
    ensures
        a == c,
{
    assert forall|x: int| 0 <= x < 10 implies a.0[x] == c.0[x] by {
        assert forall|i: u64| i < 64 implies #[trigger] bit(a.0[x], i) == bit(c.0[x], i) by {
            assert(a.cell(x, i as int) == c.cell(x, i as int));
        }
        lemma_bits_equal(a.0[x], c.0[x]);
    }
    assert(a.0 =~= c.0);
}

/// A generated placement is a valid placement on the board.
pub proof fn lemma_generated_on_board(b: Board, p: Piece, spins: Spins, m: Move)
    requires
        is_generated(b, p, spins, m),
    ensures
        m.on_board(),
{
    let (x, y, r, tag) = choose|x: int, y: int, r: Rotation, tag: Spin| {
        &&& #[trigger] reachable(b, p, (x, y, r))
        &&& landed_at(b, p, (x, y, r))
        &&& arrives_with(b, p, spins, (x, y, r), tag)
        &&& Move::pack(x, y, r, p, tag).is_placement()
        &&& m == #[trigger] Move::pack(x, y, r, p, tag).canonical_move()
    };
    let o = Move::pack(x, y, r, p, tag);
    Move::lemma_pack(x, y, r, p, tag);
    lemma_canonical_move(o);
    lemma_piece_cells_bounded(p, r);
    lemma_piece_cells_bounded(m.piece_spec(), m.rot_spec());
    let c = piece_cells_spec(p, r);
    assert(!solid(b, x + c[0].0, y + c[0].1) && !solid(b, x + c[1].0, y + c[1].1)
        && !solid(b, x + c[2].0, y + c[2].1) && !solid(b, x + c[3].0, y + c[3].1));
    assert forall|i: int| 0 <= i < 4 implies 0 <= (#[trigger] m.cell_at(i)).0 < 10 && 0 <= m.cell_at(i).1 < 20 by {
        let cell = m.cell_at(i);
        assert(m.occupies(cell.0, cell.1));
        assert(o.occupies(cell.0, cell.1));
        assert(cell.1 < 8);
    }
}

/// Placing a valid placement on the board and clearing the rows it
/// completes.
pub fn play(board: Board, m: Move) -> (r: Board)
    requires
        m.on_board(),
    ensures
        r == after_move(board, m),
{
    let mut a = board;
    a.apply(m);
    let ghost a0 = applied(board, m);
    proof {
        assert(is_applied(board, m, a));
        lemma_board_ext(a0, a);
    }
    let mask = a.filled_rows();
    let ghost mask0 = full_rows(a);
    proof {
        assert(is_full_rows(a, mask));
        assert forall|i: u64| i < 64 implies #[trigger] bit(mask0, i) == bit(mask, i) by {}
        lemma_bits_equal(mask0, mask);
    }
    let r = a.clear_lines(mask);
    let ghost r0 = without_rows(a, mask);
    proof {
        assert(is_without_rows(a, mask, r));
        lemma_board_ext(r0, r);
    }
    r
}

/// `x + y` wrapped into a `usize`.
proof fn lemma_wrapping_add(x: usize, y: usize)
    ensures
        x.wrapping_add(y) as int == (x + y) % (usize::MAX as int + 1),
{
    let m = usize::MAX as int + 1;
    if x + y > usize::MAX {
        lemma_mod_add_multiples_vanish(x + y - m, m);
        lemma_small_mod((x + y - m) as nat, m as nat);
    } else {
        lemma_small_mod((x + y) as nat, m as nat);
    }
}

/// The sum, over the placements `moves`, of the counts of depth `d` below
/// the boards they leave on `b`, with the pieces `rest` to come.
pub open spec fn subtree_sum(b: Board, rest: Seq<Piece>, d: nat, moves: Seq<Move>) -> int
    decreases moves.len(),
{
    if moves.len() == 0 {
        0
    } else {
        subtree_sum(b, rest, d, moves.drop_last()) + perft_spec(after_move(b, moves.last()), rest, d)
    }
}

/// `subtree_sum` is a `seq_sum` over packed bits.
proof fn lemma_subtree_sum(b: Board, rest: Seq<Piece>, d: nat, moves: Seq<Move>)
    ensures
        subtree_sum(b, rest, d, moves) == seq_sum(moves, |k: int| perft_spec(after_move(b, Move::from_bits(k as u16)), rest, d)),
    decreases moves.len(),
{
    if moves.len() > 0 {
        lemma_subtree_sum(b, rest, d, moves.drop_last());
        Move::lemma_bits(moves.last(), 0);
    }
}

/// A list of distinct generated placements is no longer than the number of
/// placements generated.
proof fn lemma_generated_count_bound(b: Board, p: Piece, s: Seq<Move>)
    requires
        generated_exactly(b, p, Spins::T, s),
    ensures
        s.len() <= generated_count(b, p),
{
    let one = |k: int| if gen_key(b, p, k) { 1int } else { 0int };
    let c1 = |k: int| 1int;
    lemma_seq_sum_plus_one(s, |k: int| 0int, c1);
    lemma_seq_sum_zero(s);
    lemma_seq_sum_keys(s, c1);
    assert forall|k: int| 0 <= k < 0x10000 implies #[trigger] restrict(c1, key_set(s))(k) <= one(k) by {
        if key_set(s).contains(k) {
            let j = choose|j: int| 0 <= j < s.len() && (#[trigger] s[j]).bits() == k;
            Move::lemma_bits(s[j], 0);
        }
    }
    lemma_range_sum_mono(restrict(c1, key_set(s)), one, 0x10000);
}

/// The count of the tree of depth `d` below `b` is the number of
/// placements move generation returns for the first piece plus, for each of
/// them, the count of depth `d - 1` below the board it leaves, whenever the
/// buffer did not fill up.
pub proof fn lemma_perft_moves(b: Board, q: Seq<Piece>, d: nat, moves: Seq<Move>)
    requires
        d > 0,
        q.len() > 0,
        generated_exactly(b, q[0], Spins::T, moves),
        moves.len() < 256,
    ensures
        perft_spec(b, q, d) == moves.len() + subtree_sum(b, q.drop_first(), (d - 1) as nat, moves),
{
    let s = moves;
    let h = |k: int| perft_spec(after_move(b, Move::from_bits(k as u16)), q.drop_first(), (d - 1) as nat);
    let g = |k: int| 1 + h(k);
    let f = |k: int| if gen_key(b, q[0], k) {
        1 + perft_spec(after_move(b, Move::from_bits(k as u16)), q.drop_first(), (d - 1) as nat)
    } else {
        0
    };
    assert forall|k: int| 0 <= k < 0x10000 implies #[trigger] restrict(g, key_set(s))(k) == f(k) by {
        if key_set(s).contains(k) {
            let j = choose|j: int| 0 <= j < s.len() && (#[trigger] s[j]).bits() == k;
            Move::lemma_bits(s[j], 0);
        } else if gen_key(b, q[0], k) {
            let mk = Move::from_bits(k as u16);
            Move::lemma_bits(mk, k as u16);
            assert(s.contains(mk));
            let j = choose|j: int| 0 <= j < s.len() && s[j] == mk;
            assert(key_set(s).contains(k));
        }
    }
    lemma_range_sum_ext(restrict(g, key_set(s)), f, 0x10000);
    lemma_seq_sum_keys(s, g);
    lemma_seq_sum_plus_one(s, h, g);
    lemma_perft_keys_sum(b, q, d, 0x10000);
    lemma_subtree_sum(b, q.drop_first(), (d - 1) as nat, s);
}

/// Count the placements in the game tree of depth `depth` below `board`,
/// where the pieces of `queue` come one after another and each placement
/// clears the rows it completes. The count wraps around on overflow. It is
/// exact whenever no board of the tree has more placements than a move
/// buffer holds.
pub fn perft(board: Board, queue: Queue, depth: usize) -> (n: usize)
    ensures
        perft_fits(board, queue@, depth as nat) ==> n as int == perft_spec(board, queue@, depth as nat) % (usize::MAX as int + 1),
    decreases depth,
{
    let ghost md = usize::MAX as int + 1;
    if depth == 0 || queue.is_empty() {
        proof {
            lemma_small_mod(0, md as nat);
        }
        return 0;
    }
    let piece = match queue.get(0) {
        Some(p) => p,
        None => {
            return 0;
        },
    };
    let ghost q = queue@;
    let ghost d = depth as nat;
    let mut out = MoveBuffer::new();
    movegen(board, piece, Spins::T, &mut out);
    let rest = queue.slice(1, queue.len());
    assert(rest@ =~= q.drop_first());
    let ghost s = out@;
    let ghost h = |k: int| perft_spec(after_move(board, Move::from_bits(k as u16)), q.drop_first(), (d - 1) as nat);
    let mut total: usize = out.len();
    proof {
        lemma_small_mod(s.len(), md as nat);
        assert(s.take(0) =~= Seq::<Move>::empty());
    }
    let mut i: usize = 0;
    while i < out.len()
        invariant
            0 < depth,
            d == depth as nat,
            md == usize::MAX as int + 1,
            q == queue@,
            q.len() > 0,
            piece == q[0],
            rest@ == q.drop_first(),
            out@ == s,
            generated_exactly(board, piece, Spins::T, s),
            i <= s.len(),
            h == (|k: int| perft_spec(after_move(board, Move::from_bits(k as u16)), q.drop_first(), (d - 1) as nat)),
            perft_fits(board, q, d) ==> total as int == (s.len() + subtree_sum(board, q.drop_first(), (d - 1) as nat,
                s.take(i as int))) % md,
        decreases s.len() - i,
    {
        let m = out.get(i);
        proof {
            lemma_generated_on_board(board, piece, Spins::T, m);
        }
        let child = play(board, m);
        let c = perft(child, rest, depth - 1);
        proof {
            let k = m.bits() as int;
            Move::lemma_bits(m, 0);
            let rest_d = (d - 1) as nat;
            assert(s.take(i + 1).drop_last() =~= s.take(i as int));
            assert(subtree_sum(board, q.drop_first(), rest_d, s.take(i + 1)) == subtree_sum(board, q.drop_first(), rest_d,
                s.take(i as int)) + h(k));
            if perft_fits(board, q, d) {
                assert(gen_key(board, q[0], k));
                lemma_fits_keys(board, q, d, 0x10000, k);
                lemma_wrapping_add(total, c);
                lemma_add_mod_noop(s.len() + subtree_sum(board, q.drop_first(), rest_d, s.take(i as int)), h(k), md);
                lemma_small_mod(total as nat, md as nat);
                lemma_small_mod(c as nat, md as nat);
            }
        }
        total = total.wrapping_add(c);
        i += 1;
    }
    proof {
        if perft_fits(board, q, d) {
            assert(s.take(s.len() as int) =~= s);
            lemma_generated_count_bound(board, q[0], s);
            lemma_perft_moves(board, q, d, s);
        }
    }
    total
}

/// The sum of zero is zero.
proof fn lemma_seq_sum_zero(s: Seq<Move>)
    ensures
        seq_sum(s, |k: int| 0int) == 0,
    decreases s.len(),
{
    if s.len() > 0 {
        lemma_seq_sum_zero(s.drop_last());
    }
}

} // verus!
