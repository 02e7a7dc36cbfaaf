use vstd::prelude::*;
use crate::board::{Board, kept_rows};
use crate::header::bit;
use crate::placement::Move;
use crate::spin::Spin;

verus! {

/// The points awarded per kind of clear, without the back-to-back factor.
#[derive(Clone, Copy, Debug, PartialEq, Eq, Structural)]
pub struct ClearTable {
    pub single: usize,
    pub double: usize,
    pub triple: usize,
    pub quad: usize,
    pub spin_zero: usize,
    pub spin_mini: usize,
    pub spin_mini_single: usize,
    pub spin_single: usize,
    pub spin_mini_double: usize,
    pub spin_double: usize,
    pub spin_mini_triple: usize,
    pub spin_triple: usize,
    pub spin_mini_quad: usize,
    pub spin_quad: usize,
}

impl ClearTable {
    /// The points of the blitz rules.
    pub fn blitz() -> (t: ClearTable)
        ensures
            t == (ClearTable {
                single: 100,
                double: 300,
                triple: 500,
                quad: 800,
                spin_zero: 400,
                spin_mini: 100,
                spin_mini_single: 200,
                spin_single: 800,
                spin_mini_double: 400,
                spin_double: 1200,
                spin_mini_triple: 600,
                spin_triple: 1600,
                spin_mini_quad: 900,
                spin_quad: 2000,
            }),
    {
        ClearTable {
            single: 100,
            double: 300,
            triple: 500,
            quad: 800,
            spin_zero: 400,
            spin_mini: 100,
            spin_mini_single: 200,
            spin_single: 800,
            spin_mini_double: 400,
            spin_double: 1200,
            spin_mini_triple: 600,
            spin_triple: 1600,
            spin_mini_quad: 900,
            spin_quad: 2000,
        }
    }
}

/// The base points for clearing `line_clears` lines with spin state `spin`.
pub open spec fn base_score_spec(t: ClearTable, line_clears: int, spin: Spin) -> int {
    match spin {
        Spin::NoSpin => if line_clears == 0 { 0 } else if line_clears == 1 { t.single as int } else if line_clears == 2 {
            t.double as int
        } else if line_clears == 3 { t.triple as int } else { t.quad as int },
        Spin::Mini => if line_clears == 0 { t.spin_mini as int } else if line_clears == 1 { t.spin_mini_single as int } else if line_clears == 2 {
            t.spin_mini_double as int
        } else if line_clears == 3 { t.spin_mini_triple as int } else { t.spin_mini_quad as int },
        Spin::Full => if line_clears == 0 { t.spin_zero as int } else if line_clears == 1 { t.spin_single as int } else if line_clears == 2 {
            t.spin_double as int
        } else if line_clears == 3 { t.spin_triple as int } else { t.spin_quad as int },
    }
}

/// Each kind of clear scores its own entry of the table, whatever the
/// table holds: a plain clear of one to four lines its single, double,
/// triple or quad, a mini or full spin its spin entry for that many lines,
/// and a plain placement that clears nothing scores nothing.
pub proof fn lemma_base_score_entries(t: ClearTable)
    ensures
        base_score_spec(t, 0, Spin::NoSpin) == 0,
        base_score_spec(t, 1, Spin::NoSpin) == t.single,
        base_score_spec(t, 2, Spin::NoSpin) == t.double,
        base_score_spec(t, 3, Spin::NoSpin) == t.triple,
        base_score_spec(t, 4, Spin::NoSpin) == t.quad,
        base_score_spec(t, 0, Spin::Mini) == t.spin_mini,
        base_score_spec(t, 1, Spin::Mini) == t.spin_mini_single,
        base_score_spec(t, 2, Spin::Mini) == t.spin_mini_double,
        base_score_spec(t, 3, Spin::Mini) == t.spin_mini_triple,
        base_score_spec(t, 4, Spin::Mini) == t.spin_mini_quad,
        base_score_spec(t, 0, Spin::Full) == t.spin_zero,
        base_score_spec(t, 1, Spin::Full) == t.spin_single,
        base_score_spec(t, 2, Spin::Full) == t.spin_double,
        base_score_spec(t, 3, Spin::Full) == t.spin_triple,
        base_score_spec(t, 4, Spin::Full) == t.spin_quad,
{
}

/// The base points for clearing `line_clears` (at most four) lines with
/// spin state `spin`.
pub fn base_score(t: &ClearTable, line_clears: usize, spin: Spin) -> (s: usize)
    requires
        line_clears <= 4,
    ensures
        s == base_score_spec(*t, line_clears as int, spin),
{
    match (line_clears, spin) {
        (0, Spin::NoSpin) => 0,
        (0, Spin::Mini) => t.spin_mini,
        (0, Spin::Full) => t.spin_zero,
        (1, Spin::NoSpin) => t.single,
        (1, Spin::Mini) => t.spin_mini_single,
        (1, Spin::Full) => t.spin_single,
        (2, Spin::NoSpin) => t.double,
        (2, Spin::Mini) => t.spin_mini_double,
        (2, Spin::Full) => t.spin_double,
        (3, Spin::NoSpin) => t.triple,
        (3, Spin::Mini) => t.spin_mini_triple,
        (3, Spin::Full) => t.spin_triple,
        (_, Spin::NoSpin) => t.quad,
        (_, Spin::Mini) => t.spin_mini_quad,
        (_, Spin::Full) => t.spin_quad,
    }
}

/// The total of a clear: base points, back-to-back extra, combo and perfect
/// clear bonuses, scaled by `level * level_scale` unless `level_scale` is 0.
pub open spec fn total_score_spec(base: int, extra: int, combo: int, combo_bonus: int, pc: bool, perfect_clear: int,
    level: int, level_scale: int) -> int {
    let total = base + extra + combo_bonus * combo + (if pc { perfect_clear } else { 0 });
    if level_scale != 0 {
        total * level * level_scale
    } else {
        total
    }
}

/// The total of a clear (see `total_score_spec`).
pub fn total_score(base: usize, extra: usize, combo: usize, combo_bonus: usize, pc: bool, perfect_clear: usize,
    level: usize, level_scale: usize) -> (s: usize)
    requires
        total_score_spec(base as int, extra as int, combo as int, combo_bonus as int, pc, perfect_clear as int, 1, 1) <= usize::MAX,
        level_scale != 0 ==> total_score_spec(base as int, extra as int, combo as int, combo_bonus as int, pc, perfect_clear as int,
            level as int, level_scale as int) <= usize::MAX,
    ensures
        s == total_score_spec(base as int, extra as int, combo as int, combo_bonus as int, pc, perfect_clear as int,
            level as int, level_scale as int),
{
    assert(combo_bonus * combo >= 0) by (nonlinear_arith) requires combo_bonus >= 0, combo >= 0;
    let combo_score = combo_bonus * combo;
    let pc_score = if pc { perfect_clear } else { 0 };
    let total = base + extra + combo_score + pc_score;
    if level_scale != 0 {
        proof {
            let t = total as int;
            assert(t * level >= 0 && t * level <= t * level * level_scale) by (nonlinear_arith)
                requires t >= 0, level >= 0, level_scale >= 1;
        }
        total * level * level_scale
    } else {
        total
    }
}

/// The number of bits set among bits `0..n` of `v`.
pub open spec fn ones(v: u64, n: nat) -> nat
    decreases n,
{
    if n == 0 {
        0
    } else {
        ones(v, (n - 1) as nat) + if bit(v, (n - 1) as u64) { 1nat } else { 0 }
    }
}

/// The number of bits set in `v`.
pub fn count_ones(v: u64) -> (n: u32)
    ensures
        n == ones(v, 64),
{
    let mut n: u32 = 0;
    let mut i: u64 = 0;
    while i < 64
        invariant
            i <= 64,
            n == ones(v, i as nat),
            n <= i,
        decreases 64 - i,
    {
        if (v >> i) & 1 == 1 {
            n += 1;
        }
        i += 1;
    }
    n
}

/// Whether row `y` of `b` is filled in every column.
pub open spec fn full_row(b: Board, y: int) -> bool {
    forall|x: int| 0 <= x < 10 ==> #[trigger] b.cell(x, y)
}

/// The number of filled rows among rows `0..n` of `b`.
pub open spec fn full_rows(b: Board, n: nat) -> nat
    decreases n,
{
    if n == 0 {
        0
    } else {
        full_rows(b, (n - 1) as nat) + if full_row(b, n - 1) { 1nat } else { 0 }
    }
}

/// The cells of column `c` of `b` in rows `0..n` that lie in rows that are
/// not filled, lowest first.
pub open spec fn unfilled_rows(b: Board, c: u64, n: nat) -> Seq<bool>
    decreases n,
{
    if n == 0 {
        Seq::empty()
    } else if full_row(b, n - 1) {
        unfilled_rows(b, c, (n - 1) as nat)
    } else {
        unfilled_rows(b, c, (n - 1) as nat).push(bit(c, (n - 1) as u64))
    }
}

proof fn lemma_mask_rows(b: Board, mask: u64, c: u64, n: nat)
    requires
        n <= 64,
        forall|y: u64| y < 64 ==> #[trigger] bit(mask, y) == full_row(b, y as int),
    ensures
        ones(mask, n) == full_rows(b, n),
        kept_rows(c, mask, n) == unfilled_rows(b, c, n),
    decreases n,
{
    if n > 0 {
        lemma_mask_rows(b, mask, c, (n - 1) as nat);
        assert(bit(mask, (n - 1) as u64) == full_row(b, n - 1));
    }
}

proof fn lemma_full_rows_grow(a: Board, b: Board, n: nat)
    requires
        forall|x: int, y: int| #[trigger] a.cell(x, y) ==> b.cell(x, y),
    ensures
        full_rows(a, n) <= full_rows(b, n),
    decreases n,
{
    if n > 0 {
        lemma_full_rows_grow(a, b, (n - 1) as nat);
        if full_row(a, n - 1) {
            assert forall|x: int| 0 <= x < 10 implies #[trigger] b.cell(x, n - 1) by {
                assert(a.cell(x, n - 1));
            }
        }
    }
}

/// Whether `placed` is `board` with `placement`'s cells filled, and `res`
/// holds `placed` with its filled rows cleared, the number of rows the
/// placement completed, and whether nothing is left.
pub open spec fn clear_outcome(board: Board, placement: Move, placed: Board, res: (Board, usize, bool)) -> bool {
    &&& forall|cx: int, cy: int| #[trigger] placed.cell(cx, cy) == (board.cell(cx, cy) || placement.occupies(cx, cy))
    &&& forall|x: int, k: int| 0 <= x < 10 && 0 <= k < 64 ==> #[trigger] res.0.cell(x, k)
        == (k < unfilled_rows(placed, placed.0[x], 64).len() && unfilled_rows(placed, placed.0[x], 64)[k])
    &&& res.1 == full_rows(placed, 64) - full_rows(board, 64)
    &&& res.2 == (forall|x: int| 0 <= x < 10 ==> #[trigger] res.0.0[x] == 0)
}

/// The board after placing `placement` and clearing the rows then filled,
/// with the number of rows the placement completed and whether the board is
/// then empty.
pub fn place_and_clear(board: Board, placement: Move) -> (res: (Board, usize, bool))
    requires
        placement.is_valid(),
        placement.cells_nonneg(),
        forall|i: int| 0 <= i < 4 ==> (#[trigger] placement.cell_at(i)).0 < 10 && placement.cell_at(i).1 < 20,
    ensures
        exists|placed: Board| #[trigger] clear_outcome(board, placement, placed, res),
{
    let before_mask = board.filled_rows();
    let before = count_ones(before_mask);
    let mut placed = board;
    placed.apply(placement);
    let mask = placed.filled_rows();
    let after_count = count_ones(mask);
    proof {
        lemma_mask_rows(board, before_mask, 0, 64);
        lemma_mask_rows(placed, mask, 0, 64);
        lemma_full_rows_grow(board, placed, 64);
    }
    let cleared = (after_count - before) as usize;
    let after = placed.clear_lines(mask);
    let pc = after.is_empty();
    proof {
        assert forall|x: int, k: int| 0 <= x < 10 && 0 <= k < 64 implies #[trigger] after.cell(x, k)
            == (k < unfilled_rows(placed, placed.0[x], 64).len() && unfilled_rows(placed, placed.0[x], 64)[k]) by {
            lemma_mask_rows(placed, mask, placed.0[x], 64);
        }
        assert(before == full_rows(board, 64));
        assert(after_count == full_rows(placed, 64));
        assert(cleared == full_rows(placed, 64) - full_rows(board, 64));
        assert(forall|cx: int, cy: int| #[trigger] placed.cell(cx, cy) == (board.cell(cx, cy) || placement.occupies(cx, cy)));
        assert(pc == (forall|x: int| 0 <= x < 10 ==> #[trigger] after.0[x] == 0));
        let res = (after, cleared, pc);
        assert(res.0 == after && res.1 == cleared && res.2 == pc);
        assert forall|x: int, k: int| 0 <= x < 10 && 0 <= k < 64 implies #[trigger] res.0.cell(x, k)
            == (k < unfilled_rows(placed, placed.0[x], 64).len() && unfilled_rows(placed, placed.0[x], 64)[k]) by {
            assert(after.cell(x, k) == (k < unfilled_rows(placed, placed.0[x], 64).len() && unfilled_rows(placed, placed.0[x], 64)[k]));
        }
        assert(clear_outcome(board, placement, placed, res));
    }
    (after, cleared, pc)
}

} // verus!
