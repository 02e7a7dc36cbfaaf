use vstd::prelude::*;

verus! {

/// The maximum number of rows a board can have.
pub const ROWS: usize = 20;

/// The number of columns a board has.
pub const COLS: usize = 10;

/// The number of bits of a column that describe rows.
pub const COL_BITS: usize = 20;

/// The rows that placements and collision data are restricted to.
pub const COL_MASK: u64 = 0b111111;

/// Whether bit `i` of `v` is set (false for `i >= 64`).
pub open spec fn bit(v: u64, i: u64) -> bool {
    (v >> i) & 1 == 1
}

/// Bitwise facts on single bits, proved once by bit-blasting.
proof fn lemma_bit_facts(a: u64, b: u64, i: u64)
    by (bit_vector)
    ensures
        ((a | b) >> i) & 1 == 1 <==> ((a >> i) & 1 == 1 || (b >> i) & 1 == 1),
        ((a & b) >> i) & 1 == 1 <==> ((a >> i) & 1 == 1 && (b >> i) & 1 == 1),
        ((a ^ b) >> i) & 1 == 1 <==> ((a >> i) & 1 == 1) != ((b >> i) & 1 == 1),
        i < 64 ==> (((!a) >> i) & 1 == 1 <==> !((a >> i) & 1 == 1)),
        i >= 64 ==> !((a >> i) & 1 == 1),
        !((0u64 >> i) & 1 == 1),
        ((!0u64) >> i) & 1 == 1 <==> i < 64,
        u64::MAX == !0u64,
        a & 0u64 == 0u64,
        i < 64 ==> ((a & (1u64 << i) != 0) <==> (a >> i) & 1 == 1),
        i < 64 ==> ((a & (1u64 << i) == 0) <==> !((a >> i) & 1 == 1)),
        ((a >> i) & 1 != 0) <==> ((a >> i) & 1 == 1),
        0 < i < 64 ==> (1u64 << i) >> 1u64 == 1u64 << ((i - 1) as u64),
{
}

pub proof fn lemma_bit_or(a: u64, b: u64, i: u64)
    ensures
        bit(a | b, i) == (bit(a, i) || bit(b, i)),
{
    lemma_bit_facts(a, b, i);
}

pub proof fn lemma_bit_and(a: u64, b: u64, i: u64)
    ensures
        bit(a & b, i) == (bit(a, i) && bit(b, i)),
{
    lemma_bit_facts(a, b, i);
}

pub proof fn lemma_bit_not(a: u64, i: u64)
    requires
        i < 64,
    ensures
        bit(!a, i) == !bit(a, i),
{
    lemma_bit_facts(a, 0, i);
}

pub proof fn lemma_bit_high(a: u64, i: u64)
    requires
        i >= 64,
    ensures
        !bit(a, i),
{
    lemma_bit_facts(a, 0, i);
}

pub proof fn lemma_bit_zero(i: u64)
    ensures
        !bit(0, i),
{
    lemma_bit_facts(0, 0, i);
}

pub proof fn lemma_bit_ones(i: u64)
    ensures
        bit(!0u64, i) == (i < 64),
        bit(u64::MAX, i) == (i < 64),
{
    lemma_bit_facts(0, 0, i);
}

/// Testing bit `y` with a mask, and the mask of the row below.
pub proof fn lemma_bit_test(a: u64, y: u64)
    requires
        y < 64,
    ensures
        (a & (1u64 << y) != 0) == bit(a, y),
        (a & (1u64 << y) == 0) == !bit(a, y),
        ((a >> y) & 1 != 0) == bit(a, y),
        a & 0u64 == 0u64,
        y > 0 ==> (a & ((1u64 << y) >> 1u64) != 0) == bit(a, (y - 1) as u64),
{
    lemma_bit_facts(a, 0, y);
    if y > 0 {
        let y1 = (y - 1) as u64;
        lemma_bit_facts(a, 0, y1);
    }
}

pub proof fn lemma_bit_single(y: u64, i: u64)
    requires
        y < 64,
    ensures
        bit(1u64 << y, i) == (i == y),
{
    assert(((1u64 << y) >> i) & 1 == 1 <==> i == y) by (bit_vector) requires y < 64;
}

pub proof fn lemma_bit_shl(a: u64, s: u64, i: u64)
    requires
        s < 64,
    ensures
        bit(a << s, i) == (s <= i < 64 && bit(a, (i - s) as u64)),
{
    if s <= i && i < 64 {
        let j = (i - s) as u64;
        assert(((a << s) >> i) & 1 == 1 <==> (a >> j) & 1 == 1) by (bit_vector)
            requires s < 64, i < 64, j == i - s;
    } else {
        assert(!(((a << s) >> i) & 1 == 1)) by (bit_vector) requires s < 64, !(s <= i && i < 64);
    }
}

pub proof fn lemma_bit_shr(a: u64, s: u64, i: u64)
    requires
        s < 64,
        i < 64,
    ensures
        bit(a >> s, i) == (i + s < 64 && bit(a, (i + s) as u64)),
{
    if i + s < 64 {
        let j = (i + s) as u64;
        assert(((a >> s) >> i) & 1 == 1 <==> (a >> j) & 1 == 1) by (bit_vector)
            requires s < 64, i < 64, j == i + s;
    } else {
        assert(!(((a >> s) >> i) & 1 == 1)) by (bit_vector) requires s < 64, i < 64, i + s >= 64;
    }
}

/// The bits `0..s` (all set), as `(1 << s) - 1`.
pub proof fn lemma_bit_low_ones(s: u64, i: u64)
    requires
        s < 64,
    ensures
        (1u64 << s) >= 1,
        bit(((1u64 << s) - 1) as u64, i) == (i < s),
{
    assert((1u64 << s) >= 1 && (((((1u64 << s) - 1) as u64) >> i) & 1 == 1 <==> i < s)) by (bit_vector)
        requires s < 64;
}

pub proof fn lemma_bit_col_mask(i: u64)
    ensures
        bit(COL_MASK, i) == (i < 6),
{
    assert(((0b111111u64) >> i) & 1 == 1 <==> i < 6) by (bit_vector);
}

proof fn lemma_bits_equal_from(a: u64, b: u64, k: u64)
    requires
        k <= 64,
        forall|i: u64| i < 64 ==> #[trigger] bit(a, i) == bit(b, i),
    ensures
        a >> k == b >> k,
    decreases 64 - k,
{
    if k == 64 {
        assert(a >> 64u64 == b >> 64u64) by (bit_vector);
    } else {
        lemma_bits_equal_from(a, b, (k + 1) as u64);
        assert(bit(a, k) == bit(b, k));
        let k1 = (k + 1) as u64;
        assert(a >> k == b >> k) by (bit_vector)
            requires
                k < 64,
                k1 == k + 1,
                a >> k1 == b >> k1,
                ((a >> k) & 1 == 1) == ((b >> k) & 1 == 1),
        ;
    }
}

/// Two words with the same bits are equal.
pub proof fn lemma_bits_equal(a: u64, b: u64)
    requires
        forall|i: u64| i < 64 ==> #[trigger] bit(a, i) == bit(b, i),
    ensures
        a == b,
{
    lemma_bits_equal_from(a, b, 0);
    assert(a == b) by (bit_vector) requires a >> 0u64 == b >> 0u64;
}

/// The value of `fill_low(s)`.
pub open spec fn fill_low_spec(s: u32) -> u64 {
    if s == 0 {
        0
    } else {
        (((1u64 << s) - 1) as u64) & COL_MASK
    }
}

/// The value of `fill_high(s)`.
pub open spec fn fill_high_spec(s: u32) -> u64 {
    if s == 0 {
        0
    } else {
        (!(((1u64 << (20 - s) as u32) - 1) as u64)) & COL_MASK
    }
}

/// The rows `0..s` that lie within `COL_MASK`.
pub fn fill_low(s: u32) -> (r: u64)
    requires
        s < 64,
    ensures
        r == fill_low_spec(s),
        forall|i: u64| #[trigger] bit(r, i) <==> (i < s && i < 6),
{
    if s == 0 {
        proof {
            assert forall|i: u64| #[trigger] bit(0, i) <==> (i < s && i < 6) by {
                lemma_bit_zero(i);
            }
        }
        0u64
    } else {
        proof {
            lemma_bit_low_ones(s as u64, 0);
        }
        let r = ((1u64 << s) - 1) & COL_MASK;
        proof {
            assert forall|i: u64| #[trigger] bit(r, i) <==> (i < s && i < 6) by {
                lemma_bit_and(((1u64 << s) - 1) as u64, COL_MASK, i);
                lemma_bit_low_ones(s as u64, i);
                lemma_bit_col_mask(i);
            }
        }
        r
    }
}

/// The rows from `COL_BITS - s` upwards that lie within `COL_MASK`.
pub fn fill_high(s: u32) -> (r: u64)
    requires
        s <= 20,
    ensures
        r == fill_high_spec(s),
        forall|i: u64| #[trigger] bit(r, i) <==> (0 < s && 20 - s <= i && i < 6),
{
    if s == 0 {
        proof {
            assert forall|i: u64| #[trigger] bit(0, i) <==> (0 < s && 20 - s <= i && i < 6) by {
                lemma_bit_zero(i);
            }
        }
        0u64
    } else {
        let t: u32 = COL_BITS as u32 - s;
        proof {
            lemma_bit_low_ones(t as u64, 0);
        }
        let r = (!((1u64 << t) - 1)) & COL_MASK;
        proof {
            assert forall|i: u64| #[trigger] bit(r, i) <==> (0 < s && 20 - s <= i && i < 6) by {
                let low = ((1u64 << t) - 1) as u64;
                lemma_bit_and(!low, COL_MASK, i);
                lemma_bit_col_mask(i);
                if i < 64 {
                    lemma_bit_not(low, i);
                    lemma_bit_low_ones(t as u64, i);
                }
            }
        }
        r
    }
}

} // verus!
