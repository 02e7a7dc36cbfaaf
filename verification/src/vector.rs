use vstd::prelude::*;
use core::ops::{BitAnd, BitOr, BitXor};
use crate::board::Board;

verus! {

/// A board held as three groups of four lanes: lanes `0..10` are the
/// columns, lanes 10 and 11 are padding.
#[derive(Clone, Copy, Debug)]
pub struct SimdBoard([[u64; 4]; 3]);

impl View for SimdBoard {
    type V = Seq<u64>;

    /// The twelve lanes, in order.
    closed spec fn view(&self) -> Seq<u64> {
        Seq::new(12, |i: int| self.0[i / 4][i % 4])
    }
}

impl SimdBoard {
    /// Build a board from its twelve lanes.
    fn make(l: [u64; 12]) -> (b: SimdBoard)
        ensures
            b@ == l@,
    {
        let b = SimdBoard([[l[0], l[1], l[2], l[3]], [l[4], l[5], l[6], l[7]], [l[8], l[9], l[10], l[11]]]);
        assert(b@ =~= l@);
        b
    }

    /// Lane `i`.
    fn lane(&self, i: usize) -> (v: u64)
        requires
            i < 12,
        ensures
            v == self@[i as int],
    {
        self.0[i / 4][i % 4]
    }

    /// Convert from a [`Board`]: the columns, then two zero lanes.
    pub fn from_board(board: Board) -> (b: SimdBoard)
        ensures
            b@ == board.0@ + seq![0u64, 0u64],
    {
        let c = board.0;
        let b = SimdBoard::make([c[0], c[1], c[2], c[3], c[4], c[5], c[6], c[7], c[8], c[9], 0, 0]);
        assert(b@ =~= board.0@ + seq![0u64, 0u64]);
        b
    }

    /// Convert back to a [`Board`]: the first ten lanes.
    pub fn to_board(self) -> (b: Board)
        ensures
            b.0@ == self@.subrange(0, 10),
    {
        let mut out = [0u64; 10];
        let mut i: usize = 0;
        while i < 10
            invariant
                i <= 10,
                forall|k: int| 0 <= k < i ==> #[trigger] out[k] == self@[k],
            decreases 10 - i,
        {
            out[i] = self.lane(i);
            i += 1;
        }
        let b = Board(out);
        assert(b.0@ =~= self@.subrange(0, 10));
        b
    }

    /// Shifts the entire board left by one column: lane `i` takes lane
    /// `i + 1` for the columns `0..9`, and column 9 and the padding become 0.
    pub fn shift_left(self) -> (b: SimdBoard)
        ensures
            b@ == Seq::new(12, |i: int| if i < 9 { self@[i + 1] } else { 0u64 }),
    {
        let mut l = [0u64; 12];
        let mut i: usize = 0;
        while i < 9
            invariant
                i <= 9,
                forall|k: int| 0 <= k < i ==> #[trigger] l[k] == self@[k + 1],
                forall|k: int| 9 <= k < 12 ==> #[trigger] l[k] == 0,
            decreases 9 - i,
        {
            l[i] = self.lane(i + 1);
            i += 1;
        }
        let b = SimdBoard::make(l);
        assert(b@ =~= Seq::new(12, |i: int| if i < 9 { self@[i + 1] } else { 0u64 }));
        b
    }

    /// Shifts the entire board right by one lane: lane 0 becomes 0 and every
    /// other lane takes the lane before it (the padding included).
    pub fn shift_right(self) -> (b: SimdBoard)
        ensures
            b@ == Seq::new(12, |i: int| if i == 0 { 0u64 } else { self@[i - 1] }),
    {
        let mut l = [0u64; 12];
        let mut i: usize = 1;
        while i < 12
            invariant
                1 <= i <= 12,
                l[0] == 0,
                forall|k: int| 1 <= k < i ==> #[trigger] l[k] == self@[k - 1],
            decreases 12 - i,
        {
            l[i] = self.lane(i - 1);
            i += 1;
        }
        let b = SimdBoard::make(l);
        assert(b@ =~= Seq::new(12, |i: int| if i == 0 { 0u64 } else { self@[i - 1] }));
        b
    }

    /// Shifts the entire board down by one row (every lane `>> 1`).
    pub fn shift_down(self) -> (b: SimdBoard)
        ensures
            b@ == Seq::new(12, |i: int| self@[i] >> 1u64),
    {
        let mut l = [0u64; 12];
        let mut i: usize = 0;
        while i < 12
            invariant
                i <= 12,
                forall|k: int| 0 <= k < i ==> #[trigger] l[k] == self@[k] >> 1u64,
            decreases 12 - i,
        {
            l[i] = self.lane(i) >> 1u64;
            i += 1;
        }
        let b = SimdBoard::make(l);
        assert(b@ =~= Seq::new(12, |i: int| self@[i] >> 1u64));
        b
    }

    /// Shifts the entire board up by one row (every lane `<< 1`).
    pub fn shift_up(self) -> (b: SimdBoard)
        ensures
            b@ == Seq::new(12, |i: int| self@[i] << 1u64),
    {
        let mut l = [0u64; 12];
        let mut i: usize = 0;
        while i < 12
            invariant
                i <= 12,
                forall|k: int| 0 <= k < i ==> #[trigger] l[k] == self@[k] << 1u64,
            decreases 12 - i,
        {
            l[i] = self.lane(i) << 1u64;
            i += 1;
        }
        let b = SimdBoard::make(l);
        assert(b@ =~= Seq::new(12, |i: int| self@[i] << 1u64));
        b
    }

    /// Whether all ten column lanes are exactly 0 (the padding is ignored).
    pub fn is_empty(self) -> (r: bool)
        ensures
            r == (forall|i: int| 0 <= i < 10 ==> self@[i] == 0),
    {
        let mut i: usize = 0;
        while i < 10
            invariant
                i <= 10,
                forall|k: int| 0 <= k < i ==> self@[k] == 0,
            decreases 10 - i,
        {
            if self.lane(i) != 0 {
                return false;
            }
            i += 1;
        }
        true
    }
}

/// The board whose twelve lanes are `s`.
pub closed spec fn from_lanes(s: Seq<u64>) -> SimdBoard {
    choose|b: SimdBoard| b@ == s
}

/// A board has twelve lanes.
pub proof fn lemma_lanes_len(b: SimdBoard)
    ensures
        b@.len() == 12,
{
}

/// Boards with the same lanes are equal.
proof fn lemma_view_injective(a: SimdBoard, b: SimdBoard)
    requires
        a@ == b@,
    ensures
        a == b,
{
    assert forall|i: int| 0 <= i < 3 implies a.0[i] =~= b.0[i] by {
        assert forall|j: int| 0 <= j < 4 implies a.0[i][j] == b.0[i][j] by {
            let k = i * 4 + j;
            assert(k / 4 == i && k % 4 == j && 0 <= k < 12) by (nonlinear_arith) requires k == i * 4 + j, 0 <= j < 4, 0 <= i < 3;
            assert(a@[k] == a.0[k / 4][k % 4] && b@[k] == b.0[k / 4][k % 4]);
            assert(a@[k] == b@[k]);
        }
    }
    assert(a.0 =~= b.0);
}

/// A board is the board of its lanes.
pub proof fn lemma_from_lanes(b: SimdBoard)
    ensures
        from_lanes(b@) == b,
{
    lemma_view_injective(from_lanes(b@), b);
}

impl PartialEq for SimdBoard {
    /// Whether every lane equals the same lane of `other`.
    fn eq(&self, other: &SimdBoard) -> (r: bool) {
        let mut i: usize = 0;
        while i < 12
            invariant
                i <= 12,
                forall|k: int| 0 <= k < i ==> self@[k] == other@[k],
            decreases 12 - i,
        {
            if self.lane(i) != other.lane(i) {
                return false;
            }
            i += 1;
        }
        assert(self@ =~= other@);
        true
    }
}

impl vstd::std_specs::cmp::PartialEqSpecImpl for SimdBoard {
    open spec fn obeys_eq_spec() -> bool {
        true
    }

    open spec fn eq_spec(&self, other: &SimdBoard) -> bool {
        self@ == other@
    }
}

impl core::ops::BitOr for SimdBoard {
    type Output = SimdBoard;

    /// Lane-wise or.
    fn bitor(self, rhs: SimdBoard) -> (b: SimdBoard)
        ensures
            b@ == Seq::new(12, |i: int| self@[i] | rhs@[i]),
    {
        let mut l = [0u64; 12];
        let mut i: usize = 0;
        while i < 12
            invariant
                i <= 12,
                forall|k: int| 0 <= k < i ==> #[trigger] l[k] == self@[k] | rhs@[k],
            decreases 12 - i,
        {
            l[i] = self.lane(i) | rhs.lane(i);
            i += 1;
        }
        let b = SimdBoard::make(l);
        assert(b@ =~= Seq::new(12, |i: int| self@[i] | rhs@[i]));
        proof {
            lemma_from_lanes(b);
        }
        b
    }
}

impl vstd::std_specs::ops::BitOrSpecImpl for SimdBoard {
    open spec fn obeys_bitor_spec() -> bool {
        true
    }

    open spec fn bitor_req(self, rhs: SimdBoard) -> bool {
        true
    }

    open spec fn bitor_spec(self, rhs: SimdBoard) -> SimdBoard {
        from_lanes(Seq::new(12, |i: int| self@[i] | rhs@[i]))
    }
}

impl core::ops::BitOrAssign for SimdBoard {
    /// Lane-wise or into `self`.
    fn bitor_assign(&mut self, rhs: SimdBoard)
        ensures
            final(self)@ == Seq::new(12, |i: int| old(self)@[i] | rhs@[i]),
    {
        *self = self.bitor(rhs);
    }
}

impl core::ops::BitAnd for SimdBoard {
    type Output = SimdBoard;

    /// Lane-wise and.
    fn bitand(self, rhs: SimdBoard) -> (b: SimdBoard)
        ensures
            b@ == Seq::new(12, |i: int| self@[i] & rhs@[i]),
    {
        let mut l = [0u64; 12];
        let mut i: usize = 0;
        while i < 12
            invariant
                i <= 12,
                forall|k: int| 0 <= k < i ==> #[trigger] l[k] == self@[k] & rhs@[k],
            decreases 12 - i,
        {
            l[i] = self.lane(i) & rhs.lane(i);
            i += 1;
        }
        let b = SimdBoard::make(l);
        assert(b@ =~= Seq::new(12, |i: int| self@[i] & rhs@[i]));
        proof {
            lemma_from_lanes(b);
        }
        b
    }
}

impl vstd::std_specs::ops::BitAndSpecImpl for SimdBoard {
    open spec fn obeys_bitand_spec() -> bool {
        true
    }

    open spec fn bitand_req(self, rhs: SimdBoard) -> bool {
        true
    }

    open spec fn bitand_spec(self, rhs: SimdBoard) -> SimdBoard {
        from_lanes(Seq::new(12, |i: int| self@[i] & rhs@[i]))
    }
}

impl core::ops::BitAndAssign for SimdBoard {
    /// Lane-wise and into `self`.
    fn bitand_assign(&mut self, rhs: SimdBoard)
        ensures
            final(self)@ == Seq::new(12, |i: int| old(self)@[i] & rhs@[i]),
    {
        *self = self.bitand(rhs);
    }
}

impl core::ops::BitXor for SimdBoard {
    type Output = SimdBoard;

    /// Lane-wise exclusive or.
    fn bitxor(self, rhs: SimdBoard) -> (b: SimdBoard)
        ensures
            b@ == Seq::new(12, |i: int| self@[i] ^ rhs@[i]),
    {
        let mut l = [0u64; 12];
        let mut i: usize = 0;
        while i < 12
            invariant
                i <= 12,
                forall|k: int| 0 <= k < i ==> #[trigger] l[k] == self@[k] ^ rhs@[k],
            decreases 12 - i,
        {
            l[i] = self.lane(i) ^ rhs.lane(i);
            i += 1;
        }
        let b = SimdBoard::make(l);
        assert(b@ =~= Seq::new(12, |i: int| self@[i] ^ rhs@[i]));
        proof {
            lemma_from_lanes(b);
        }
        b
    }
}

impl vstd::std_specs::ops::BitXorSpecImpl for SimdBoard {
    open spec fn obeys_bitxor_spec() -> bool {
        true
    }

    open spec fn bitxor_req(self, rhs: SimdBoard) -> bool {
        true
    }

    open spec fn bitxor_spec(self, rhs: SimdBoard) -> SimdBoard {
        from_lanes(Seq::new(12, |i: int| self@[i] ^ rhs@[i]))
    }
}

impl core::ops::BitXorAssign for SimdBoard {
    /// Lane-wise exclusive or into `self`.
    fn bitxor_assign(&mut self, rhs: SimdBoard)
        ensures
            final(self)@ == Seq::new(12, |i: int| old(self)@[i] ^ rhs@[i]),
    {
        *self = self.bitxor(rhs);
    }
}

impl core::ops::Not for SimdBoard {
    type Output = SimdBoard;

    /// Lane-wise complement of the ten column lanes; the padding lanes
    /// become 0.
    fn not(self) -> (b: SimdBoard)
        ensures
            b@ == Seq::new(12, |i: int| if i < 10 { !self@[i] } else { 0u64 }),
    {
        let mut l = [0u64; 12];
        let mut i: usize = 0;
        while i < 10
            invariant
                i <= 10,
                forall|k: int| 0 <= k < i ==> #[trigger] l[k] == !self@[k],
                forall|k: int| 10 <= k < 12 ==> #[trigger] l[k] == 0,
            decreases 10 - i,
        {
            l[i] = !self.lane(i);
            i += 1;
        }
        let b = SimdBoard::make(l);
        assert(b@ =~= Seq::new(12, |i: int| if i < 10 { !self@[i] } else { 0u64 }));
        proof {
            lemma_from_lanes(b);
        }
        b
    }
}

impl vstd::std_specs::ops::NotSpecImpl for SimdBoard {
    open spec fn obeys_not_spec() -> bool {
        true
    }

    open spec fn not_req(self) -> bool {
        true
    }

    open spec fn not_spec(self) -> SimdBoard {
        from_lanes(Seq::new(12, |i: int| if i < 10 { !self@[i] } else { 0u64 }))
    }
}

/// Converting a board to lanes and back gives the same board.
pub proof fn lemma_board_roundtrip(board: Board)
    ensures
        (board.0@ + seq![0u64, 0u64]).subrange(0, 10) == board.0@,
{
    assert((board.0@ + seq![0u64, 0u64]).subrange(0, 10) =~= board.0@);
}

} // verus!
