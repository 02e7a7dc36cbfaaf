use vstd::prelude::*;
use crate::placement::Move;
use crate::header::{
    COLS, COL_MASK, bit, fill_high, fill_low, lemma_bit_and, lemma_bit_col_mask, lemma_bit_high,
    lemma_bit_not, lemma_bit_or, lemma_bit_shl, lemma_bit_shr, lemma_bit_single, lemma_bit_zero,
    lemma_bit_test, lemma_bits_equal,
};

verus! {

/// Column-major board: array of column bitvectors. Bit `y` of column `x`
/// is set when the cell `(x, y)` is filled.
#[derive(Clone, Copy, Debug, PartialEq, Eq)]
pub struct Board(pub [u64; COLS]);

/// Bit `i` of a column after shifting it by `dy` rows, as `Board::shift_rows`
/// does: upward shifts fill the lowest rows, downward shifts fill the rows
/// from `20 + dy` upwards, and every nonzero shift keeps only the rows of
/// `COL_MASK` (`0..6`).
pub open spec fn shifted_row_bit(c: u64, dy: int, i: u64) -> bool {
    if dy == 0 {
        bit(c, i)
    } else if dy > 0 {
        i < 6 && (i < dy || bit(c, (i - dy) as u64))
    } else {
        i < 6 && (i >= 20 + dy || bit(c, (i - dy) as u64))
    }
}

/// Column `x` after shifting the columns by `dx`: columns move towards higher
/// `x` for positive `dx`, and columns shifted in from outside are empty.
pub open spec fn shifted_col(b: Board, dx: int, x: int) -> u64 {
    if 0 <= x - dx < 10 {
        b.0[x - dx]
    } else {
        0
    }
}

impl Board {
    /// Whether the cell `(x, y)` is filled (false outside the columns or
    /// beyond bit 63).
    pub open spec fn cell(self, x: int, y: int) -> bool {
        0 <= x < 10 && 0 <= y < 64 && bit(self.0[x], y as u64)
    }

    /// The empty board.
    pub fn empty() -> (b: Board)
        ensures
            forall|x: int| 0 <= x < 10 ==> b.0[x] == 0,
            forall|x: int, y: int| !#[trigger] b.cell(x, y),
    {
        let b = Board([0u64; 10]);
        proof {
            assert forall|x: int, y: int| !#[trigger] b.cell(x, y) by {
                if 0 <= x < 10 && 0 <= y < 64 {
                    lemma_bit_zero(y as u64);
                }
            }
        }
        b
    }

    /// Whether the cell `(x, y)` is filled.
    pub fn get(self, x: usize, y: usize) -> (r: bool)
        requires
            x < 10,
            y < 64,
        ensures
            r == self.cell(x as int, y as int),
    {
        let c = self.0[x];
        let y64 = y as u64;
        proof {
            lemma_bit_test(c, y64);
        }
        (c >> y64) & 1 != 0
    }

    /// Set the cell at `(x, y)`.
    pub fn set(&mut self, x: usize, y: usize)
        requires
            x < 10,
            y < 20,
        ensures
            forall|cx: int, cy: int| #[trigger] final(self).cell(cx, cy) == ((cx == x && cy == y) || old(self).cell(cx, cy)),
    {
        let ghost before = *self;
        let v = self.0[x] | (1u64 << y);
        self.0[x] = v;
        proof {
            assert forall|cx: int, cy: int| #[trigger] self.cell(cx, cy) == ((cx == x && cy == y) || before.cell(cx, cy)) by {
                if 0 <= cx < 10 && 0 <= cy < 64 && cx == x {
                    lemma_bit_or(before.0[cx], 1u64 << y, cy as u64);
                    lemma_bit_single(y as u64, cy as u64);
                }
            }
        }
    }

    /// Clear the cell at `(x, y)`.
    pub fn clear(&mut self, x: usize, y: usize)
        requires
            x < 10,
            y < 20,
        ensures
            forall|cx: int, cy: int| #[trigger] final(self).cell(cx, cy) == (!(cx == x && cy == y) && old(self).cell(cx, cy)),
    {
        let ghost before = *self;
        let v = self.0[x] & !(1u64 << y);
        self.0[x] = v;
        proof {
            assert forall|cx: int, cy: int| #[trigger] self.cell(cx, cy) == (!(cx == x && cy == y) && before.cell(cx, cy)) by {
                if 0 <= cx < 10 && 0 <= cy < 64 && cx == x {
                    lemma_bit_and(before.0[cx], !(1u64 << y), cy as u64);
                    lemma_bit_not(1u64 << y, cy as u64);
                    lemma_bit_single(y as u64, cy as u64);
                }
            }
        }
    }

    /// Set the cells described in `slice`. See [`Board::set`].
    pub fn set_many(&mut self, slice: &[(usize, usize)])
        requires
            forall|i: int| 0 <= i < slice@.len() ==> (#[trigger] slice@[i]).0 < 10 && slice@[i].1 < 20,
        ensures
            forall|cx: int, cy: int| #[trigger] final(self).cell(cx, cy) == (old(self).cell(cx, cy)
                || exists|i: int| 0 <= i < slice@.len() && slice@[i].0 == cx && slice@[i].1 == cy),
    {
        let ghost before = *self;
        let mut i: usize = 0;
        while i < slice.len()
            invariant
                i <= slice@.len(),
                forall|k: int| 0 <= k < slice@.len() ==> (#[trigger] slice@[k]).0 < 10 && slice@[k].1 < 20,
                forall|cx: int, cy: int| #[trigger] self.cell(cx, cy) == (before.cell(cx, cy)
                    || exists|k: int| 0 <= k < i && slice@[k].0 == cx && slice@[k].1 == cy),
            decreases slice@.len() - i,
        {
            let (x, y) = slice[i];
            self.set(x, y);
            proof {
                assert forall|cx: int, cy: int| #[trigger] self.cell(cx, cy) == (before.cell(cx, cy)
                    || exists|k: int| 0 <= k < i + 1 && slice@[k].0 == cx && slice@[k].1 == cy) by {
                    if cx == x && cy == y {
                        assert(slice@[i as int].0 == cx && slice@[i as int].1 == cy);
                    }
                    if exists|k: int| 0 <= k < i + 1 && slice@[k].0 == cx && slice@[k].1 == cy {
                        let k = choose|k: int| 0 <= k < i + 1 && slice@[k].0 == cx && slice@[k].1 == cy;
                        if k < i {
                        } else {
                            assert(k == i);
                        }
                    }
                }
            }
            i += 1;
        }
    }

    /// The bits representing column `x`.
    pub fn col(self, x: usize) -> (r: u64)
        requires
            x < 10,
        ensures
            r == self.0[x as int],
    {
        self.0[x]
    }

    /// Shift every column by `dy` rows (filling the rows that enter with
    /// `fill_low`/`fill_high`, i.e. solid) and shift columns by `dx` (filling
    /// out-of-bounds columns with 0s).
    pub fn shift(self, dx: i32, dy: i32) -> (r: Board)
        requires
            -20 <= dy < 64,
            dx > i32::MIN,
        ensures
            forall|x: int, i: u64| 0 <= x < 10 ==> #[trigger] bit(r.0[x], i)
                == (0 <= x - dx < 10 && shifted_row_bit(self.0[x - dx], dy as int, i)),
    {
        let rows = self.shift_rows(dy);
        let r = rows.shift_cols(dx);
        proof {
            assert forall|x: int, i: u64| 0 <= x < 10 implies #[trigger] bit(r.0[x], i)
                == (0 <= x - dx < 10 && shifted_row_bit(self.0[x - dx], dy as int, i)) by {
                if !(0 <= x - dx < 10) {
                    lemma_bit_zero(i);
                }
            }
        }
        r
    }

    /// Shift every column by `dy` rows.
    pub fn shift_rows(self, dy: i32) -> (r: Board)
        requires
            -20 <= dy < 64,
        ensures
            forall|x: int, i: u64| 0 <= x < 10 ==> #[trigger] bit(r.0[x], i) == shifted_row_bit(self.0[x], dy as int, i),
            dy == 0 ==> r == self,
    {
        if dy == 0 {
            return self;
        }
        if dy > 0 {
            let s = dy as u32;
            let low = fill_low(s);
            let mut out = [0u64; 10];
            let mut x: usize = 0;
            while x < COLS
                invariant
                    x <= 10,
                    s == dy,
                    0 < s < 64,
                    forall|i: u64| #[trigger] bit(low, i) <==> (i < s && i < 6),
                    forall|k: int, i: u64| 0 <= k < x ==> #[trigger] bit(out[k], i) == shifted_row_bit(self.0[k], dy as int, i),
                decreases 10 - x,
            {
                let shifted = (self.0[x] << s) & COL_MASK;
                let v = shifted | low;
                proof {
                    assert forall|i: u64| #[trigger] bit(v, i) == shifted_row_bit(self.0[x as int], dy as int, i) by {
                        lemma_bit_or(shifted, low, i);
                        lemma_bit_and(self.0[x as int] << s, COL_MASK, i);
                        lemma_bit_shl(self.0[x as int], s as u64, i);
                        lemma_bit_col_mask(i);
                    }
                }
                out[x] = v;
                x += 1;
            }
            Board(out)
        } else {
            let s = (-dy) as u32;
            let high = fill_high(s);
            let mut out = [0u64; 10];
            let mut x: usize = 0;
            while x < COLS
                invariant
                    x <= 10,
                    s == -dy,
                    0 < s <= 20,
                    forall|i: u64| #[trigger] bit(high, i) <==> (0 < s && 20 - s <= i && i < 6),
                    forall|k: int, i: u64| 0 <= k < x ==> #[trigger] bit(out[k], i) == shifted_row_bit(self.0[k], dy as int, i),
                decreases 10 - x,
            {
                let shifted = (self.0[x] >> s) & COL_MASK;
                let v = shifted | high;
                proof {
                    assert forall|i: u64| #[trigger] bit(v, i) == shifted_row_bit(self.0[x as int], dy as int, i) by {
                        lemma_bit_or(shifted, high, i);
                        lemma_bit_and(self.0[x as int] >> s, COL_MASK, i);
                        lemma_bit_col_mask(i);
                        if i < 64 {
                            lemma_bit_shr(self.0[x as int], s as u64, i);
                        }
                    }
                }
                out[x] = v;
                x += 1;
            }
            Board(out)
        }
    }

    /// Shift the columns by `dx`, filling the columns that enter with 0s.
    pub fn shift_cols(self, dx: i32) -> (r: Board)
        requires
            dx > i32::MIN,
        ensures
            forall|x: int| 0 <= x < 10 ==> #[trigger] r.0[x] == shifted_col(self, dx as int, x),
    {
        if dx == 0 {
            return self;
        }
        let mut out = [0u64; 10];
        let mut x: usize = 0;
        while x < COLS
            invariant
                x <= 10,
                dx != 0,
                dx > i32::MIN,
                forall|k: int| 0 <= k < x ==> #[trigger] out[k] == shifted_col(self, dx as int, k),
                forall|k: int| x <= k < 10 ==> #[trigger] out[k] == 0,
            decreases 10 - x,
        {
            if dx > 0 {
                let shift = dx as usize;
                if x >= shift {
                    out[x] = self.0[x - shift];
                }
            } else {
                let shift = (-dx) as usize;
                if x + shift < COLS {
                    out[x] = self.0[x + shift];
                }
            }
            x += 1;
        }
        Board(out)
    }

    /// Fill the cells that placement `c` covers.
    pub fn apply(&mut self, c: Move)
        requires
            c.is_valid(),
            c.cells_nonneg(),
            forall|i: int| 0 <= i < 4 ==> (#[trigger] c.cell_at(i)).0 < 10 && c.cell_at(i).1 < 20,
        ensures
            forall|cx: int, cy: int| #[trigger] final(self).cell(cx, cy) == (old(self).cell(cx, cy) || c.occupies(cx, cy)),
    {
        let cells = c.cells();
        let pairs = [
            (cells[0].0 as usize, cells[0].1 as usize),
            (cells[1].0 as usize, cells[1].1 as usize),
            (cells[2].0 as usize, cells[2].1 as usize),
            (cells[3].0 as usize, cells[3].1 as usize),
        ];
        let ghost before = *self;
        proof {
            assert forall|i: int| 0 <= i < 4 implies (#[trigger] pairs@[i]).0 == c.cell_at(i).0 && pairs@[i].1 == c.cell_at(i).1 by {
                assert(cells@[i].0 == c.cell_at(i).0 && cells@[i].1 == c.cell_at(i).1);
            }
        }
        self.set_many(&pairs);
        proof {
            assert forall|cx: int, cy: int| #[trigger] self.cell(cx, cy) == (before.cell(cx, cy) || c.occupies(cx, cy)) by {
                if c.occupies(cx, cy) {
                    if c.cell_at(0) == (cx, cy) {
                        assert(pairs@[0].0 == cx && pairs@[0].1 == cy);
                    } else if c.cell_at(1) == (cx, cy) {
                        assert(pairs@[1].0 == cx && pairs@[1].1 == cy);
                    } else if c.cell_at(2) == (cx, cy) {
                        assert(pairs@[2].0 == cx && pairs@[2].1 == cy);
                    } else {
                        assert(pairs@[3].0 == cx && pairs@[3].1 == cy);
                    }
                }
                if exists|i: int| 0 <= i < pairs@.len() && pairs@[i].0 == cx && pairs@[i].1 == cy {
                    let i = choose|i: int| 0 <= i < pairs@.len() && pairs@[i].0 == cx && pairs@[i].1 == cy;
                    assert(c.cell_at(i) == (cx, cy));
                }
            }
        }
    }

    /// The rows that are filled in every column, as a mask.
    pub fn filled_rows(self) -> (m: u64)
        ensures
            forall|y: u64| y < 64 ==> #[trigger] bit(m, y) == (forall|x: int| 0 <= x < 10 ==> #[trigger] self.cell(x, y as int)),
    {
        let mut m: u64 = !0u64;
        let mut x: usize = 0;
        proof {
            assert forall|y: u64| y < 64 implies #[trigger] bit(m, y) by {
                crate::header::lemma_bit_ones(y);
            }
        }
        while x < 10
            invariant
                x <= 10,
                forall|y: u64| y < 64 ==> #[trigger] bit(m, y) == (forall|k: int| 0 <= k < x ==> #[trigger] self.cell(k, y as int)),
            decreases 10 - x,
        {
            let ghost m0 = m;
            m = m & self.0[x];
            proof {
                assert forall|y: u64| y < 64 implies #[trigger] bit(m, y) == (forall|k: int| 0 <= k < x + 1 ==> #[trigger] self.cell(k, y as int)) by {
                    lemma_bit_and(m0, self.0[x as int], y);
                    if forall|k: int| 0 <= k < x + 1 ==> #[trigger] self.cell(k, y as int) {
                        assert(self.cell(x as int, y as int));
                    }
                }
            }
            x += 1;
        }
        m
    }

    /// Whether no cell is filled.
    pub fn is_empty(self) -> (r: bool)
        ensures
            r == (forall|x: int| 0 <= x < 10 ==> #[trigger] self.0[x] == 0),
    {
        let mut x: usize = 0;
        while x < 10
            invariant
                x <= 10,
                forall|k: int| 0 <= k < x ==> #[trigger] self.0[k] == 0,
            decreases 10 - x,
        {
            if self.0[x] != 0 {
                return false;
            }
            x += 1;
        }
        true
    }

    /// Remove the rows in `mask`, moving the rows above them down.
    pub fn clear_lines(self, mask: u64) -> (r: Board)
        ensures
            forall|x: int, k: int| 0 <= x < 10 && 0 <= k < 64 ==> #[trigger] r.cell(x, k) == (k < kept_rows(self.0[x], mask, 64).len()
                && kept_rows(self.0[x], mask, 64)[k]),
    {
        let mut out = [0u64; 10];
        let mut x: usize = 0;
        while x < 10
            invariant
                x <= 10,
                forall|k: int, j: int| 0 <= k < x && 0 <= j < 64 ==> #[trigger] bit(out[k], j as u64) == (j < kept_rows(self.0[k], mask, 64).len()
                    && kept_rows(self.0[k], mask, 64)[j]),
            decreases 10 - x,
        {
            let c = compact_column(self.0[x], mask);
            out[x] = c;
            x += 1;
        }
        Board(out)
    }
}

/// The bits of `c` in rows `0..n` that are not in `mask`, lowest first.
pub open spec fn kept_rows(c: u64, mask: u64, n: nat) -> Seq<bool>
    decreases n,
{
    if n == 0 {
        Seq::empty()
    } else if bit(mask, (n - 1) as u64) {
        kept_rows(c, mask, (n - 1) as nat)
    } else {
        kept_rows(c, mask, (n - 1) as nat).push(bit(c, (n - 1) as u64))
    }
}

proof fn lemma_kept_len(c: u64, mask: u64, n: nat)
    ensures
        kept_rows(c, mask, n).len() <= n,
    decreases n,
{
    if n > 0 {
        lemma_kept_len(c, mask, (n - 1) as nat);
    }
}

/// Column `c` with the rows of `mask` removed and the rows above moved down.
fn compact_column(c: u64, mask: u64) -> (r: u64)
    ensures
        forall|j: int| 0 <= j < 64 ==> #[trigger] bit(r, j as u64) == (j < kept_rows(c, mask, 64).len() && kept_rows(c, mask, 64)[j]),
{
    let mut r: u64 = 0;
    let mut k: u64 = 0;
    let mut i: u64 = 0;
    proof {
        assert forall|j: u64| #[trigger] bit(0u64, j) == false by {
            lemma_bit_zero(j);
        }
    }
    while i < 64
        invariant
            i <= 64,
            k == kept_rows(c, mask, i as nat).len(),
            k <= i,
            forall|j: u64| #[trigger] bit(r, j) == (j < k && kept_rows(c, mask, i as nat)[j as int]),
        decreases 64 - i,
    {
        proof {
            lemma_kept_len(c, mask, (i + 1) as nat);
        }
        let ghost r0 = r;
        let skip = (mask >> i) & 1 == 1;
        if !skip {
            let b = (c >> i) & 1 == 1;
            if b {
                r = r | (1u64 << k);
            }
            proof {
                let s0 = kept_rows(c, mask, i as nat);
                let s1 = kept_rows(c, mask, (i + 1) as nat);
                assert(s1 == s0.push(bit(c, i)));
                assert forall|j: u64| #[trigger] bit(r, j) == (j < k + 1 && s1[j as int]) by {
                    if b {
                        lemma_bit_or(r0, 1u64 << k, j);
                        lemma_bit_single(k, j);
                    }
                }
            }
            k = k + 1;
        }
        i = i + 1;
    }
    r
}

/// Whether `r` holds, column by column, `f` applied to the columns of `a`
/// and `b`.
pub open spec fn columnwise(a: Board, b: Board, r: Board, f: spec_fn(u64, u64) -> u64) -> bool {
    forall|x: int| 0 <= x < 10 ==> #[trigger] r.0[x] == f(a.0[x], b.0[x])
}

/// The board whose columns are `f` of the columns of `a` and `b`.
pub open spec fn columnwise_board(a: Board, b: Board, f: spec_fn(u64, u64) -> u64) -> Board {
    choose|r: Board| columnwise(a, b, r, f)
}

/// A board built column by column is the one `columnwise_board` names.
proof fn lemma_columnwise(a: Board, b: Board, r: Board, f: spec_fn(u64, u64) -> u64)
    requires
        columnwise(a, b, r, f),
    ensures
        columnwise_board(a, b, f) == r,
{
    let c = columnwise_board(a, b, f);
    assert(columnwise(a, b, c, f));
    assert(c.0 =~= r.0);
}

impl vstd::std_specs::ops::BitOrSpecImpl for Board {
    open spec fn obeys_bitor_spec() -> bool {
        true
    }

    open spec fn bitor_req(self, rhs: Board) -> bool {
        true
    }

    open spec fn bitor_spec(self, rhs: Board) -> Board {
        columnwise_board(self, rhs, |p: u64, q: u64| p | q)
    }
}

impl vstd::std_specs::ops::BitAndSpecImpl for Board {
    open spec fn obeys_bitand_spec() -> bool {
        true
    }

    open spec fn bitand_req(self, rhs: Board) -> bool {
        true
    }

    open spec fn bitand_spec(self, rhs: Board) -> Board {
        columnwise_board(self, rhs, |p: u64, q: u64| p & q)
    }
}

impl vstd::std_specs::ops::NotSpecImpl for Board {
    open spec fn obeys_not_spec() -> bool {
        true
    }

    open spec fn not_req(self) -> bool {
        true
    }

    open spec fn not_spec(self) -> Board {
        columnwise_board(self, self, |p: u64, q: u64| !p)
    }
}

impl core::ops::BitOr for Board {
    type Output = Board;

    /// The cells filled in either board.
    fn bitor(self, rhs: Board) -> (r: Board)
        ensures
            forall|x: int| 0 <= x < 10 ==> #[trigger] r.0[x] == self.0[x] | rhs.0[x],
    {
        let mut out = [0u64; 10];
        let mut x: usize = 0;
        while x < COLS
            invariant
                x <= 10,
                forall|k: int| 0 <= k < x ==> #[trigger] out[k] == self.0[k] | rhs.0[k],
            decreases 10 - x,
        {
            out[x] = self.0[x] | rhs.0[x];
            x += 1;
        }
        let r = Board(out);
        proof {
            lemma_columnwise(self, rhs, r, |p: u64, q: u64| p | q);
        }
        r
    }
}

impl core::ops::BitOrAssign for Board {
    /// Fill the cells filled in `rhs`.
    fn bitor_assign(&mut self, rhs: Board)
        ensures
            forall|x: int| 0 <= x < 10 ==> #[trigger] final(self).0[x] == old(self).0[x] | rhs.0[x],
    {
        let mut x: usize = 0;
        while x < COLS
            invariant
                x <= 10,
                forall|k: int| 0 <= k < x ==> #[trigger] self.0[k] == old(self).0[k] | rhs.0[k],
                forall|k: int| x <= k < 10 ==> #[trigger] self.0[k] == old(self).0[k],
            decreases 10 - x,
        {
            self.0[x] = self.0[x] | rhs.0[x];
            x += 1;
        }
    }
}

impl core::ops::BitAnd for Board {
    type Output = Board;

    /// The cells filled in both boards.
    fn bitand(self, rhs: Board) -> (r: Board)
        ensures
            forall|x: int| 0 <= x < 10 ==> #[trigger] r.0[x] == self.0[x] & rhs.0[x],
    {
        let mut out = [0u64; 10];
        let mut x: usize = 0;
        while x < COLS
            invariant
                x <= 10,
                forall|k: int| 0 <= k < x ==> #[trigger] out[k] == self.0[k] & rhs.0[k],
            decreases 10 - x,
        {
            out[x] = self.0[x] & rhs.0[x];
            x += 1;
        }
        let r = Board(out);
        proof {
            lemma_columnwise(self, rhs, r, |p: u64, q: u64| p & q);
        }
        r
    }
}

impl core::ops::BitAndAssign for Board {
    /// Keep only the cells also filled in `rhs`.
    fn bitand_assign(&mut self, rhs: Board)
        ensures
            forall|x: int| 0 <= x < 10 ==> #[trigger] final(self).0[x] == old(self).0[x] & rhs.0[x],
    {
        let mut x: usize = 0;
        while x < COLS
            invariant
                x <= 10,
                forall|k: int| 0 <= k < x ==> #[trigger] self.0[k] == old(self).0[k] & rhs.0[k],
                forall|k: int| x <= k < 10 ==> #[trigger] self.0[k] == old(self).0[k],
            decreases 10 - x,
        {
            self.0[x] = self.0[x] & rhs.0[x];
            x += 1;
        }
    }
}

impl core::ops::Not for Board {
    type Output = Board;

    /// Every bit of every column flipped.
    fn not(self) -> (r: Board)
        ensures
            forall|x: int| 0 <= x < 10 ==> #[trigger] r.0[x] == !self.0[x],
    {
        let mut out = self;
        let mut x: usize = 0;
        while x < COLS
            invariant
                x <= 10,
                forall|k: int| 0 <= k < x ==> #[trigger] out.0[k] == !self.0[k],
                forall|k: int| x <= k < 10 ==> #[trigger] out.0[k] == self.0[k],
            decreases 10 - x,
        {
            out.0[x] = !out.0[x];
            x += 1;
        }
        proof {
            lemma_columnwise(self, self, out, |p: u64, q: u64| !p);
        }
        out
    }
}

} // verus!
