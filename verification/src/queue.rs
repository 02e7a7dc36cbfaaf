use vstd::prelude::*;
use crate::piece::{Piece, piece_index, piece_from_index};

verus! {

/// Facts about shifting and masking a packed queue word, proved once by
/// bit-blasting.
pub proof fn lemma_word_facts(v: u64, s: u64)
    by (bit_vector)
    ensures
        v != 0 ==> v >> 3u64 < v,
        v & 7 <= 7,
        v >> 0u64 == v,
        0u64 >> s == 0,
        0u64 & v == 0,
        0u64 | (v << 0u64) == v,
        v == 0 ==> v & 7 == 0,
        s <= 63 ==> 1u64 << s >= 1,
        s == 0 ==> v & (((1u64 << s) - 1) as u64) == 0,
{
}

/// The pieces stored in `v`: three bits per piece, holding the piece's
/// index plus one, the first piece in the least significant bits; a zero
/// slot ends the sequence.
pub open spec fn queue_seq(v: u64) -> Seq<Piece>
    decreases v,
{
    if v == 0 {
        Seq::empty()
    } else {
        proof {
            lemma_word_facts(v, 0);
        }
        seq![piece_from_index(((v & 7) - 1) as int)] + queue_seq(v >> 3u64)
    }
}

/// Whether every slot before the first empty one holds a piece (`1..=7`)
/// and the bits after it are clear.
pub open spec fn queue_wf(v: u64) -> bool
    decreases v,
{
    if v == 0 {
        true
    } else {
        proof {
            lemma_word_facts(v, 0);
        }
        v & 7 != 0 && queue_wf(v >> 3u64)
    }
}

/// A static sequence of up to 21 [`Piece`]s packed into a `u64`, three bits
/// per piece, the first piece in the least significant bits.
#[derive(Clone, Copy, Eq, Debug)]
pub struct Queue(u64);

proof fn lemma_slot_piece(v: u64)
    requires
        v & 7 != 0,
    ensures
        1 <= v & 7 <= 7,
        piece_index(piece_from_index(((v & 7) - 1) as int)) == (v & 7) - 1,
{
    lemma_word_facts(v, 0);
}

/// Well-formed words holding the same pieces are the same word.
proof fn lemma_queue_injective(v: u64, w: u64)
    requires
        queue_wf(v),
        queue_wf(w),
        queue_seq(v) == queue_seq(w),
    ensures
        v == w,
    decreases v,
{
    if v == 0 || w == 0 {
        assert(queue_seq(v).len() == 0 && queue_seq(w).len() == 0);
    } else {
        lemma_word_facts(v, 0);
        lemma_word_facts(w, 0);
        lemma_slot_piece(v);
        lemma_slot_piece(w);
        let v1 = v >> 3u64;
        let w1 = w >> 3u64;
        assert(queue_seq(v) =~= seq![piece_from_index(((v & 7) - 1) as int)] + queue_seq(v1));
        assert(queue_seq(w) =~= seq![piece_from_index(((w & 7) - 1) as int)] + queue_seq(w1));
        let pv = piece_from_index(((v & 7) - 1) as int);
        let pw = piece_from_index(((w & 7) - 1) as int);
        assert((seq![pv] + queue_seq(v1))[0] == pv);
        assert((seq![pw] + queue_seq(w1))[0] == pw);
        assert(pv == pw);
        assert(v & 7 == w & 7);
        assert(queue_seq(v1) =~= queue_seq(v).drop_first());
        assert(queue_seq(w1) =~= queue_seq(w).drop_first());
        lemma_queue_injective(v1, w1);
        assert(v == w) by (bit_vector) requires v & 7 == w & 7, v >> 3u64 == w >> 3u64;
    }
}

/// A queue whose bits from `3j` on are clear holds at most `j` pieces.
proof fn lemma_queue_len_bound(v: u64, j: nat)
    requires
        j <= 21,
        v >> (3 * j) as u64 == 0,
    ensures
        queue_seq(v).len() <= j,
    decreases v,
{
    if v != 0 {
        let t = (3 * j) as u64;
        assert(j >= 1) by {
            if j == 0 {
                lemma_word_facts(v, 0);
            }
        }
        let w = v >> 3u64;
        let t1 = (3 * (j - 1)) as u64;
        assert(w < v && w >> t1 == 0) by (bit_vector) requires v != 0, w == v >> 3u64, t == t1 + 3, t <= 63, v >> t == 0;
        lemma_queue_len_bound(w, (j - 1) as nat);
    }
}

/// A well-formed queue of `n` pieces has its bits below bit `3n`.
proof fn lemma_queue_len(v: u64)
    requires
        queue_wf(v),
    ensures
        queue_seq(v).len() <= 22,
        queue_seq(v).len() <= 21 ==> v >> (3 * queue_seq(v).len()) as u64 == 0,
        v != 0 ==> queue_seq(v).len() >= 1,
    decreases v,
{
    if v == 0 {
        lemma_word_facts(0, 0);
    } else {
        let w = v >> 3u64;
        assert(w < v && w >> 63u64 == 0) by (bit_vector) requires v != 0, w == v >> 3u64;
        lemma_queue_len(w);
        lemma_queue_len_bound(w, 21);
        let n = queue_seq(w).len();
        assert(queue_seq(v).len() == n + 1);
        if n <= 20 {
            let m = (3 * n) as u64;
            assert(v >> ((m + 3) as u64) == 0) by (bit_vector) requires w == v >> 3u64, w >> m == 0, m <= 60;
        }
    }
}

/// Shifting out `k` slots drops the first `k` pieces.
proof fn lemma_queue_shr(v: u64, k: nat)
    requires
        queue_wf(v),
        k <= 21,
    ensures
        queue_wf(v >> (3 * k) as u64),
        queue_seq(v >> (3 * k) as u64) == queue_seq(v).skip(if k <= queue_seq(v).len() { k as int } else { queue_seq(v).len() as int }),
    decreases k,
{
    lemma_queue_len(v);
    if k == 0 {
        lemma_word_facts(v, 0);
        assert(queue_seq(v).skip(0) =~= queue_seq(v));
    } else if v == 0 {
        let s = (3 * k) as u64;
        lemma_word_facts(0, s);
        assert(queue_seq(v).skip(0) =~= queue_seq(v));
    } else {
        let w = v >> 3u64;
        lemma_queue_shr(w, (k - 1) as nat);
        let s = (3 * k) as u64;
        let s1 = (3 * (k - 1)) as u64;
        assert(v >> s == w >> s1) by (bit_vector) requires w == v >> 3u64, s == s1 + 3, s <= 63;
        let n = queue_seq(v).len();
        assert(queue_seq(v) =~= seq![piece_from_index(((v & 7) - 1) as int)] + queue_seq(w));
        if k <= n {
            assert(queue_seq(v).skip(k as int) =~= queue_seq(w).skip(k - 1));
        } else {
            assert(queue_seq(v).skip(n as int) =~= queue_seq(w).skip(n - 1));
        }
    }
}

/// Keeping the low `k` slots keeps the first `k` pieces.
proof fn lemma_queue_mask(v: u64, k: nat)
    requires
        queue_wf(v),
        k <= 21,
    ensures
        (1u64 << (3 * k) as u64) >= 1,
        queue_wf(v & (((1u64 << (3 * k) as u64) - 1) as u64)),
        queue_seq(v & (((1u64 << (3 * k) as u64) - 1) as u64)) == queue_seq(v).take(
            if k <= queue_seq(v).len() { k as int } else { queue_seq(v).len() as int }),
    decreases k,
{
    let s = (3 * k) as u64;
    lemma_word_facts(v, s);
    let mask = ((1u64 << s) - 1) as u64;
    lemma_queue_len(v);
    if k == 0 {
        assert(queue_seq(v).take(0) =~= Seq::<Piece>::empty());
    } else if v == 0 {
        lemma_word_facts(mask, 0);
        assert(queue_seq(v).take(0) =~= Seq::<Piece>::empty());
    } else {
        let w = v >> 3u64;
        lemma_queue_mask(w, (k - 1) as nat);
        let s1 = (3 * (k - 1)) as u64;
        let mask1 = ((1u64 << s1) - 1) as u64;
        let x = v & mask;
        assert(x & 7 == v & 7 && x >> 3u64 == w & mask1 && x != 0) by (bit_vector)
            requires
                w == v >> 3u64, s == s1 + 3, 3 <= s <= 63, mask == ((1u64 << s) - 1) as u64,
                mask1 == ((1u64 << s1) - 1) as u64, v & 7 != 0, x == v & mask;
        lemma_word_facts(x, 0);
        assert(queue_seq(x) =~= seq![piece_from_index(((x & 7) - 1) as int)] + queue_seq(x >> 3u64));
        assert(queue_seq(v) =~= seq![piece_from_index(((v & 7) - 1) as int)] + queue_seq(w));
        let n = queue_seq(v).len();
        if k <= n {
            assert(queue_seq(v).take(k as int) =~= seq![piece_from_index(((v & 7) - 1) as int)] + queue_seq(w).take(k - 1));
        } else {
            assert(queue_seq(v).take(n as int) =~= seq![piece_from_index(((v & 7) - 1) as int)] + queue_seq(w).take(n - 1));
        }
    }
}

/// Appending a slot value `x` (`1..=7`) right after the last piece appends
/// its piece.
proof fn lemma_queue_push_back(v: u64, x: u64)
    requires
        queue_wf(v),
        queue_seq(v).len() < 21,
        1 <= x <= 7,
    ensures
        queue_wf(v | (x << (3 * queue_seq(v).len()) as u64)),
        queue_seq(v | (x << (3 * queue_seq(v).len()) as u64)) == queue_seq(v).push(piece_from_index(x - 1)),
    decreases v,
{
    lemma_queue_len(v);
    let n = queue_seq(v).len();
    let s = (3 * n) as u64;
    let w = v | (x << s);
    if v == 0 {
        assert(w == x && x & 7 == x && x >> 3u64 == 0) by (bit_vector) requires v == 0, s == 0, w == v | (x << s), 1 <= x <= 7;
        assert(queue_seq(0) =~= Seq::<Piece>::empty());
        assert(queue_seq(x) =~= seq![piece_from_index(((x & 7) - 1) as int)] + queue_seq(x >> 3u64));
        assert(queue_seq(w) =~= queue_seq(v).push(piece_from_index(x - 1)));
    } else {
        let v1 = v >> 3u64;
        lemma_word_facts(v, 0);
        assert(queue_seq(v) =~= seq![piece_from_index(((v & 7) - 1) as int)] + queue_seq(v1));
        lemma_queue_push_back(v1, x);
        let s1 = (3 * (n - 1)) as u64;
        assert(w & 7 == v & 7 && w >> 3u64 == v1 | (x << s1) && w != 0) by (bit_vector)
            requires
                v1 == v >> 3u64, s == s1 + 3, 3 <= s <= 60, w == v | (x << s), v & 7 != 0, 1 <= x <= 7,
                v >> s == 0;
        lemma_word_facts(w, 0);
        assert(queue_seq(w) =~= seq![piece_from_index(((w & 7) - 1) as int)] + queue_seq(w >> 3u64));
        assert(queue_seq(w) =~= queue_seq(v).push(piece_from_index(x - 1)));
    }
}

/// Slot `k` holds piece `k` plus one, or zero past the end.
proof fn lemma_queue_slot(v: u64, k: nat)
    requires
        queue_wf(v),
        k <= 21,
    ensures
        k < queue_seq(v).len() ==> ((v >> (3 * k) as u64) & 7) == piece_index(queue_seq(v)[k as int]) + 1,
        k >= queue_seq(v).len() ==> ((v >> (3 * k) as u64) & 7) == 0,
{
    lemma_queue_shr(v, k);
    let w = v >> (3 * k) as u64;
    lemma_queue_len(v);
    if k < queue_seq(v).len() {
        assert(w != 0) by {
            if w == 0 {
                assert(queue_seq(v).skip(k as int).len() > 0);
            }
        }
        lemma_word_facts(w, 0);
        assert(queue_seq(w) =~= seq![piece_from_index(((w & 7) - 1) as int)] + queue_seq(w >> 3u64));
        assert(queue_seq(w)[0] == queue_seq(v)[k as int]);
        lemma_slot_piece(w);
    } else {
        assert(queue_seq(w).len() == 0);
        if w != 0 {
            lemma_word_facts(w, 0);
            assert(queue_seq(w) =~= seq![piece_from_index(((w & 7) - 1) as int)] + queue_seq(w >> 3u64));
        }
        lemma_word_facts(w, 0);
    }
}

} // verus!

verus! {

/// The piece's slot value: its index plus one.
fn slot_of(piece: Piece) -> (x: u64)
    ensures
        x == piece_index(piece) + 1,
        1 <= x <= 7,
        piece_from_index(x - 1) == piece,
{
    match piece {
        Piece::T => 1,
        Piece::I => 2,
        Piece::J => 3,
        Piece::L => 4,
        Piece::O => 5,
        Piece::S => 6,
        Piece::Z => 7,
    }
}

impl View for Queue {
    type V = Seq<Piece>;

    /// The pieces of the queue, first piece first.
    closed spec fn view(&self) -> Seq<Piece> {
        queue_seq(self.0)
    }
}

impl Queue {
    #[verifier::type_invariant]
    spec fn wf(self) -> bool {
        queue_wf(self.0) && queue_seq(self.0).len() <= 21
    }

    /// An empty queue.
    pub fn new() -> (q: Queue)
        ensures
            q@ == Seq::<Piece>::empty(),
    {
        Queue(0)
    }

    /// A queue consisting of only `piece`.
    pub fn one(piece: Piece) -> (q: Queue)
        ensures
            q@ == seq![piece],
    {
        let x = slot_of(piece);
        proof {
            lemma_queue_push_back(0, x);
            assert(queue_seq(0) =~= Seq::<Piece>::empty());
            lemma_word_facts(x, 0);
            assert(seq![piece] =~= Seq::<Piece>::empty().push(piece));
        }
        Queue(x)
    }

    /// Create a queue from a given `slice`.
    pub fn from_slice(slice: &[Piece]) -> (q: Queue)
        requires
            slice@.len() <= 21,
        ensures
            q@ == slice@,
    {
        let mut q = Queue::new();
        let mut i: usize = 0;
        while i < slice.len()
            invariant
                i <= slice@.len(),
                slice@.len() <= 21,
                q@ == slice@.subrange(0, i as int),
            decreases slice@.len() - i,
        {
            q.push_back(slice[i]);
            assert(slice@.subrange(0, i + 1) =~= slice@.subrange(0, i as int).push(slice@[i as int]));
            i += 1;
        }
        assert(slice@.subrange(0, slice@.len() as int) =~= slice@);
        q
    }

    /// The number of pieces in the queue.
    pub fn len(&self) -> (n: usize)
        ensures
            n == self@.len(),
            n <= 21,
    {
        proof {
            use_type_invariant(self);
        }
        let mut v = self.0;
        let mut n: usize = 0;
        while v != 0
            invariant
                queue_wf(v),
                n <= 21,
                n + queue_seq(v).len() == queue_seq(self.0).len(),
                queue_seq(self.0).len() <= 21,
            decreases v,
        {
            proof {
                lemma_word_facts(v, 0);
            }
            v = v >> 3u64;
            n += 1;
        }
        n
    }

    /// Whether the queue holds no piece.
    pub fn is_empty(&self) -> (r: bool)
        ensures
            r == (self@.len() == 0),
    {
        self.len() == 0
    }

    /// Add a singular [`Piece`] to the front of the queue.
    pub fn push_front(&mut self, piece: Piece)
        requires
            old(self)@.len() < 21,
        ensures
            final(self)@ == seq![piece] + old(self)@,
    {
        proof {
            use_type_invariant(&*self);
            lemma_queue_len(self.0);
        }
        let v = self.0;
        let x = slot_of(piece);
        let n = self.len();
        let ghost s = (3 * n) as u64;
        let w = (v << 3u64) | x;
        proof {
            assert(w & 7 == x && w >> 3u64 == v && w != 0) by (bit_vector)
                requires w == (v << 3u64) | x, 1 <= x <= 7, v >> s == 0, s <= 60;
            lemma_word_facts(w, 0);
            assert(queue_seq(w) =~= seq![piece_from_index(((w & 7) - 1) as int)] + queue_seq(w >> 3u64));
        }
        self.0 = w;
    }

    /// Add a singular [`Piece`] to the end of the queue.
    pub fn push_back(&mut self, piece: Piece)
        requires
            old(self)@.len() < 21,
        ensures
            final(self)@ == old(self)@.push(piece),
    {
        proof {
            use_type_invariant(&*self);
        }
        let x = slot_of(piece);
        let n = self.len();
        proof {
            lemma_queue_push_back(self.0, x);
        }
        self.0 = self.0 | (x << ((n * 3) as u64));
    }

    /// Return the [`Piece`] located at index `n`, if any.
    pub fn get(&self, n: usize) -> (r: Option<Piece>)
        requires
            n <= 21,
        ensures
            n < self@.len() ==> r == Some(self@[n as int]),
            n >= self@.len() ==> r is None,
    {
        proof {
            use_type_invariant(self);
            lemma_queue_slot(self.0, n as nat);
        }
        let v = self.0;
        let bits = (v >> ((n * 3) as u64)) & 7;
        if bits == 0 {
            None
        } else {
            proof {
                lemma_word_facts(v >> ((n * 3) as u64), 0);
            }
            Some(Piece::from_index((bits - 1) as u8))
        }
    }

    /// The queue as a `Vec<Piece>`.
    pub fn as_vec(&self) -> (v: Vec<Piece>)
        ensures
            v@ == self@,
    {
        let n = self.len();
        let mut out: Vec<Piece> = Vec::new();
        let mut i: usize = 0;
        while i < n
            invariant
                i <= n,
                n == self@.len(),
                n <= 21,
                out@ == self@.subrange(0, i as int),
            decreases n - i,
        {
            let p = self.get(i);
            match p {
                Some(p) => {
                    out.push(p);
                },
                None => {},
            }
            assert(self@.subrange(0, i + 1) =~= self@.subrange(0, i as int).push(self@[i as int]));
            i += 1;
        }
        assert(self@.subrange(0, n as int) =~= self@);
        out
    }

    /// Return a [`Queue`] containing the pieces at indices `start..end`
    /// (clipped to the queue's length).
    pub fn slice(&self, start: usize, end: usize) -> (q: Queue)
        requires
            start <= end,
            start <= 21,
            end - start <= 21,
        ensures
            q@ == self@.subrange(
                if start <= self@.len() { start as int } else { self@.len() as int },
                if end <= self@.len() { end as int } else { self@.len() as int },
            ),
    {
        proof {
            use_type_invariant(self);
            lemma_queue_shr(self.0, start as nat);
            lemma_queue_mask(self.0 >> ((3 * start) as u64), (end - start) as nat);
        }
        let shifted = self.0 >> ((3 * start) as u64);
        let k = (3 * (end - start)) as u64;
        let r = shifted & ((1u64 << k) - 1);
        proof {
            let n = self@.len();
            let a = if start <= n { start as int } else { n as int };
            let b = if end <= n { end as int } else { n as int };
            assert(queue_seq(shifted) == self@.skip(a));
            let m = queue_seq(shifted).len();
            assert(m == n - a);
            assert(queue_seq(r) =~= self@.subrange(a, b));
        }
        Queue(r)
    }
}

impl PartialEq for Queue {
    /// Whether both queues hold the same pieces in the same order.
    fn eq(&self, other: &Queue) -> (r: bool) {
        proof {
            use_type_invariant(self);
            use_type_invariant(other);
            if self@ == other@ {
                lemma_queue_injective(self.0, other.0);
            }
        }
        self.0 == other.0
    }
}

impl vstd::std_specs::cmp::PartialEqSpecImpl for Queue {
    open spec fn obeys_eq_spec() -> bool {
        true
    }

    open spec fn eq_spec(&self, other: &Queue) -> bool {
        self@ == other@
    }
}

/// The letter naming `p`.
pub open spec fn piece_name(p: Piece) -> Seq<char> {
    match p {
        Piece::T => "T"@,
        Piece::I => "I"@,
        Piece::J => "J"@,
        Piece::L => "L"@,
        Piece::O => "O"@,
        Piece::S => "S"@,
        Piece::Z => "Z"@,
    }
}

/// The letters of the pieces of `s`, in order.
pub open spec fn queue_text(s: Seq<Piece>) -> Seq<char>
    decreases s.len(),
{
    if s.len() == 0 {
        Seq::empty()
    } else {
        queue_text(s.drop_last()) + piece_name(s.last())
    }
}

impl Queue {
    /// The queue written out as the letters of its pieces, first piece
    /// first.
    pub fn to_string(&self) -> (s: String)
        ensures
            s@ == queue_text(self@),
    {
        let n = self.len();
        let mut out = String::new();
        let mut i: usize = 0;
        assert(self@.take(0) =~= Seq::<Piece>::empty());
        while i < n
            invariant
                i <= n,
                n == self@.len(),
                n <= 21,
                out@ == queue_text(self@.take(i as int)),
            decreases n - i,
        {
            let name = match self.get(i) {
                Some(Piece::T) => "T",
                Some(Piece::I) => "I",
                Some(Piece::J) => "J",
                Some(Piece::L) => "L",
                Some(Piece::O) => "O",
                Some(Piece::S) => "S",
                Some(Piece::Z) => "Z",
                None => "",
            };
            out.append(name);
            assert(self@.take(i + 1).drop_last() =~= self@.take(i as int));
            i += 1;
        }
        assert(self@.take(n as int) =~= self@);
        out
    }
}

impl Default for Queue {
    fn default() -> (q: Queue)
        ensures
            q@ == Seq::<Piece>::empty(),
    {
        Queue::new()
    }
}

} // verus!
