use vstd::prelude::*;
use crate::piece::{Piece, piece_index, piece_from_index};

verus! {

/// Whether bit `i` of `v` is set.
pub open spec fn bit8(v: u8, i: int) -> bool {
    0 <= i < 8 && (v >> (i as u8)) & 1 == 1
}

/// The pieces `0..n` whose bit is set in `v`, in index order.
pub open spec fn pieces_in(v: u8, n: int) -> Seq<Piece>
    decreases n,
{
    if n <= 0 {
        Seq::empty()
    } else if bit8(v, n - 1) {
        pieces_in(v, n - 1).push(piece_from_index(n - 1))
    } else {
        pieces_in(v, n - 1)
    }
}

/// The number of bits set among bits `0..n` of `v`.
pub open spec fn ones_below(v: u8, n: int) -> int
    decreases n,
{
    if n <= 0 {
        0
    } else {
        ones_below(v, n - 1) + if bit8(v, n - 1) { 1int } else { 0 }
    }
}

/// Single-bit facts on a byte, proved once by bit-blasting.
proof fn lemma_bit8_facts(v: u8, i: u8, j: u8)
    by (bit_vector)
    requires
        i < 7,
        j < 7,
    ensures
        (0b01111111u8 >> i) & 1 == 1,
        (v & (1u8 << i) != 0) == ((v >> i) & 1 == 1),
        !(((v & !(1u8 << i)) >> i) & 1 == 1),
        i != j ==> ((((v & !(1u8 << i)) >> j) & 1 == 1) == ((v >> j) & 1 == 1)),
{
}

/// Which pieces remain in the current bag. Bit `i` means piece `i` has not
/// yet been drawn. When the state hits 0, it is reset to `0b1111111` as a
/// new bag has started.
#[derive(Clone, Copy, Debug, PartialEq, Eq, Hash, Structural)]
pub struct Bag(pub u8);

impl Bag {
    /// Whether `p` remains in the bag.
    pub open spec fn has(self, p: Piece) -> bool {
        bit8(self.0, piece_index(p))
    }

    /// A full bag.
    pub fn full() -> (b: Bag)
        ensures
            b.0 == 0b01111111,
            forall|p: Piece| #[trigger] b.has(p),
    {
        let b = Bag(0b01111111);
        proof {
            assert forall|p: Piece| #[trigger] b.has(p) by {
                let i = piece_index(p) as u8;
                lemma_bit8_facts(0, i, 0);
            }
        }
        b
    }

    /// The remaining pieces in the bag, in index order.
    pub fn remaining(self) -> (v: Vec<Piece>)
        ensures
            v@ == pieces_in(self.0, 7),
    {
        let mut out: Vec<Piece> = Vec::new();
        let mut i: u8 = 0;
        while i < 7
            invariant
                i <= 7,
                out@ == pieces_in(self.0, i as int),
            decreases 7 - i,
        {
            let v = self.0;
            proof {
                lemma_bit8_facts(v, i, 0);
            }
            if v & (1u8 << i) != 0 {
                out.push(Piece::from_index(i));
            }
            i += 1;
        }
        out
    }

    /// Draw a single piece from the bag.
    pub fn draw(self, p: Piece) -> (b: Bag)
        ensures
            (self.0 & !(1u8 << piece_index(p) as u8)) != 0 ==> b.0 == self.0 & !(1u8 << piece_index(p) as u8),
            (self.0 & !(1u8 << piece_index(p) as u8)) == 0 ==> b.0 == 0b01111111,
            (self.0 & !(1u8 << piece_index(p) as u8)) != 0 ==> !b.has(p)
                && forall|q: Piece| q != p ==> (#[trigger] b.has(q) == self.has(q)),
    {
        let i = p.index() as u8;
        let next = self.0 & !(1u8 << i);
        if next == 0 {
            Bag::full()
        } else {
            let b = Bag(next);
            proof {
                let v = self.0;
                lemma_bit8_facts(v, i, 0);
                assert forall|q: Piece| q != p implies (#[trigger] b.has(q) == self.has(q)) by {
                    let j = piece_index(q) as u8;
                    lemma_bit8_facts(v, i, j);
                }
            }
            b
        }
    }

    /// The number of pieces remaining in the bag (the number of bits set).
    pub fn count(self) -> (n: u32)
        ensures
            n == ones_below(self.0, 8),
    {
        let mut n: u32 = 0;
        let mut i: u8 = 0;
        while i < 8
            invariant
                i <= 8,
                n == ones_below(self.0, i as int),
                n <= i,
            decreases 8 - i,
        {
            let v = self.0;
            if (v >> i) & 1 == 1 {
                n += 1;
            }
            i += 1;
        }
        n
    }
}

proof fn lemma_pieces_ones(v: u8, n: int)
    requires
        0 <= n <= 8,
    ensures
        pieces_in(v, n).len() == ones_below(v, n),
    decreases n,
{
    if n > 0 {
        lemma_pieces_ones(v, n - 1);
    }
}

/// For a bag whose unused top bit is clear, `count` is the number of pieces
/// `remaining` lists.
pub proof fn lemma_count_remaining(b: Bag)
    requires
        !bit8(b.0, 7),
    ensures
        ones_below(b.0, 8) == pieces_in(b.0, 7).len(),
{
    lemma_pieces_ones(b.0, 7);
}

} // verus!
