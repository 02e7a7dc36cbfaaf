use vstd::prelude::*;
use crate::placement::Move;

verus! {

/// Maximum amount of reachable moves for a single piece.
pub const MAX_MOVES: usize = 256;

/// A fixed-sized stack-allocated list of placements, up to [`MAX_MOVES`] in
/// total.
pub struct MoveBuffer {
    data: [Move; 256],
    len: usize,
}

/// The moves of `s` whose entry in `keep` is true, in order.
pub open spec fn select(s: Seq<Move>, keep: Seq<bool>) -> Seq<Move>
    decreases s.len(),
{
    if s.len() == 0 {
        Seq::empty()
    } else if keep.len() > 0 && keep.last() {
        select(s.drop_last(), keep.drop_last()).push(s.last())
    } else {
        select(s.drop_last(), keep.drop_last())
    }
}

impl View for MoveBuffer {
    type V = Seq<Move>;

    /// The moves held, in order.
    closed spec fn view(&self) -> Seq<Move> {
        self.data@.subrange(0, self.len as int)
    }
}

impl MoveBuffer {
    #[verifier::type_invariant]
    spec fn wf(self) -> bool {
        self.len <= 256
    }

    /// All [`MAX_MOVES`] slots of storage, the unused ones included.
    pub closed spec fn slots(&self) -> Seq<Move> {
        self.data@
    }

    /// Create an empty buffer. The elements are filled with [`Move::null()`].
    pub fn new() -> (b: MoveBuffer)
        ensures
            b@ == Seq::<Move>::empty(),
            b.slots() == Seq::new(256, |i: int| Move::from_bits(0xffff)),
    {
        let n = Move::null();
        proof {
            Move::lemma_bits(n, 0);
        }
        let data = [n; 256];
        assert(data == vstd::array::spec_array_fill_for_copy_type::<Move, 256>(n));
        let b = MoveBuffer { data, len: 0 };
        assert(b@ =~= Seq::<Move>::empty());
        assert(b.slots() =~= Seq::new(256, |i: int| Move::from_bits(0xffff)));
        b
    }

    /// Clears the buffer.
    pub fn clear(&mut self)
        ensures
            final(self)@ == Seq::<Move>::empty(),
    {
        self.len = 0;
        assert(self@ =~= Seq::<Move>::empty());
    }

    /// Append a move to the end of the buffer.
    pub fn push(&mut self, m: Move)
        requires
            old(self)@.len() < MAX_MOVES,
        ensures
            final(self)@ == old(self)@.push(m),
    {
        proof {
            use_type_invariant(&*self);
        }
        let ghost before = self@;
        let i = self.len;
        self.data[i] = m;
        self.len = i + 1;
        assert(self@ =~= before.push(m));
    }

    /// The number of moves held.
    pub fn len(&self) -> (r: usize)
        ensures
            r == self@.len(),
            r <= MAX_MOVES,
    {
        proof {
            use_type_invariant(self);
        }
        self.len
    }

    /// Whether no move is held.
    pub fn is_empty(&self) -> (r: bool)
        ensures
            r == (self@.len() == 0),
    {
        proof {
            use_type_invariant(self);
        }
        self.len == 0
    }

    /// The moves held, as a slice.
    pub fn as_slice(&self) -> (s: &[Move])
        ensures
            s@ == self@,
    {
        proof {
            use_type_invariant(self);
        }
        let all = vstd::array::array_as_slice(&self.data);
        let s = &all[0..self.len];
        s
    }

    /// The moves held, to change in place.
    pub fn as_slice_mut(&mut self) -> (s: &mut [Move])
        ensures
            s@ == old(self)@,
            final(self)@ == final(s)@,
    {
        proof {
            use_type_invariant(&*self);
        }
        let n = self.len;
        let all: &mut [Move] = &mut self.data;
        let (front, _back) = all.split_at_mut(n);
        front
    }

    /// The move at index `i`.
    pub fn get(&self, i: usize) -> (m: Move)
        requires
            i < self@.len(),
        ensures
            m == self@[i as int],
    {
        proof {
            use_type_invariant(self);
        }
        self.data[i]
    }

    /// An iterator over the moves held.
    pub fn iter(&self) -> (it: MoveIter<'_>)
        ensures
            it.pos() == 0,
            it.moves() == self@,
    {
        MoveIter::new(self)
    }

    /// A cursor over the moves that hands each out for change in place.
    pub fn iter_mut(&mut self) -> (it: MoveIterMut<'_>)
        ensures
            it.rest@ == old(self)@,
            final(self)@ == final(it.rest)@,
    {
        MoveIterMut::new(self)
    }

    /// Keep only the moves for which `f` returns true, in order.
    pub fn retain<F>(&mut self, f: F)
        where
            F: Fn(&Move) -> bool,
        requires
            forall|m: Move| #[trigger] f.requires((&m,)),
        ensures
            exists|keep: Seq<bool>| {
                &&& keep.len() == old(self)@.len()
                &&& (forall|i: int| 0 <= i < keep.len() ==> #[trigger] f.ensures((&old(self)@[i],), keep[i]))
                &&& final(self)@ == select(old(self)@, keep)
            },
    {
        proof {
            use_type_invariant(&*self);
        }
        let ghost before = self@;
        let ghost mut keep: Seq<bool> = Seq::empty();
        let n = self.len;
        let mut dst: usize = 0;
        let mut src: usize = 0;
        while src < n
            invariant
                n == before.len(),
                n <= 256,
                dst <= src <= n,
                self.len == n,
                keep.len() == src,
                forall|i: int| 0 <= i < src ==> #[trigger] f.ensures((&before[i],), keep[i]),
                forall|m: Move| #[trigger] f.requires((&m,)),
                forall|i: int| src <= i < n ==> #[trigger] self.data@[i] == before[i],
                self.data@.subrange(0, dst as int) == select(before.subrange(0, src as int), keep),
            decreases n - src,
        {
            let m = self.data[src];
            let k = f(&m);
            let ghost old_keep = keep;
            let ghost prefix = self.data@.subrange(0, dst as int);
            proof {
                keep = keep.push(k);
                let s1 = before.subrange(0, src + 1);
                assert(s1.drop_last() =~= before.subrange(0, src as int));
                assert(keep.drop_last() =~= old_keep);
                assert(s1.last() == m);
                assert(select(s1, keep) == if k { select(before.subrange(0, src as int), old_keep).push(m) } else {
                    select(before.subrange(0, src as int), old_keep)
                });
            }
            if k {
                self.data[dst] = m;
                assert(self.data@.subrange(0, dst + 1) =~= prefix.push(m));
                dst += 1;
            }
            src += 1;
        }
        self.len = dst;
        proof {
            assert(before.subrange(0, n as int) =~= before);
            assert(self@ =~= select(before, keep));
        }
    }
}

impl Default for MoveBuffer {
    fn default() -> (b: MoveBuffer)
        ensures
            b@ == Seq::<Move>::empty(),
    {
        MoveBuffer::new()
    }
}

/// A cursor over the moves of a [`MoveBuffer`].
pub struct MoveIter<'a> {
    buf: &'a MoveBuffer,
    ptr: usize,
}

impl<'a> MoveIter<'a> {
    /// The moves being walked over.
    pub closed spec fn moves(&self) -> Seq<Move> {
        self.buf@
    }

    /// The number of moves already handed out.
    pub closed spec fn pos(&self) -> int {
        self.ptr as int
    }

    /// A cursor at the first move of `buf`.
    pub fn new(buf: &'a MoveBuffer) -> (it: MoveIter<'a>)
        ensures
            it.pos() == 0,
            it.moves() == buf@,
    {
        MoveIter { buf, ptr: 0 }
    }

    /// The next move, if any, advancing the cursor.
    pub fn next(&mut self) -> (r: Option<Move>)
        ensures
            final(self).moves() == old(self).moves(),
            old(self).pos() < old(self).moves().len() ==> r == Some(old(self).moves()[old(self).pos()])
                && final(self).pos() == old(self).pos() + 1,
            old(self).pos() >= old(self).moves().len() ==> r is None && final(self).pos() == old(self).pos(),
    {
        if self.ptr >= self.buf.len() {
            return None;
        }
        let value = self.buf.get(self.ptr);
        self.ptr += 1;
        Some(value)
    }
}

/// A cursor over the moves of a [`MoveBuffer`] that hands each out for
/// change in place.
pub struct MoveIterMut<'a> {
    /// The moves not yet handed out.
    pub rest: &'a mut [Move],
}

impl<'a> MoveIterMut<'a> {
    /// A cursor at the first move of `buf`.
    pub fn new(buf: &'a mut MoveBuffer) -> (it: MoveIterMut<'a>)
        ensures
            it.rest@ == old(buf)@,
            final(buf)@ == final(it.rest)@,
    {
        let s = buf.as_slice_mut();
        MoveIterMut { rest: s }
    }
}

impl<'a> MoveIterMut<'a> {
    /// The next move, to change in place, if any, advancing the cursor.
    pub fn next(&mut self) -> (r: Option<&'a mut Move>)
        ensures
            old(self).rest@.len() == 0 ==> r is None && final(self).rest@ == old(self).rest@
                && final(final(self).rest)@ == final(old(self).rest)@,
            old(self).rest@.len() > 0 ==> (r matches Some(m) && *m == old(self).rest@[0]
                && final(self).rest@ == old(self).rest@.drop_first()
                && final(old(self).rest)@ == seq![*final(m)] + final(final(self).rest)@),
    {
        let mut rest: &'a mut [Move] = &mut [];
        core::mem::swap(&mut rest, &mut self.rest);
        if rest.len() == 0 {
            self.rest = rest;
            return None;
        }
        let (head, tail) = rest.split_at_mut(1);
        self.rest = tail;
        head.first_mut()
    }
}

} // verus!
