use vstd::prelude::*;

verus! {

/// A read position over a borrowed byte slice.
///
/// The position never passes the end of the slice.
pub struct Cursor<'a> {
    inner: &'a [u8],
    pos: usize,
}

impl<'a> Cursor<'a> {
    #[verifier::type_invariant]
    spec fn wf(self) -> bool {
        self.pos <= self.inner.len()
    }

    /// The bytes the cursor reads from.
    pub closed spec fn bytes(&self) -> Seq<u8> {
        self.inner@
    }

    /// The current position, an index into `bytes()`. (The type invariant
    /// keeps the field within the bytes; the bound written here lets proofs
    /// outside this module use it.)
    pub closed spec fn pos(&self) -> int {
        if self.pos <= self.inner@.len() {
            self.pos as int
        } else {
            self.inner@.len() as int
        }
    }

    /// The position lies between the start and the end of the bytes.
    pub proof fn lemma_pos_in_bounds(&self)
        ensures
            0 <= self.pos() <= self.bytes().len(),
    {
    }

    /// A cursor at the start of `inner`.
    pub fn new(inner: &'a [u8]) -> (c: Self)
        ensures
            c.bytes() == inner@,
            c.pos() == 0,
    {
        Cursor { inner, pos: 0 }
    }

    /// The current position.
    pub fn position(&self) -> (p: u64)
        ensures
            p == self.pos(),
    {
        proof { use_type_invariant(self); }
        self.pos as u64
    }

    /// The current position, as an index.
    pub(crate) fn offset(&self) -> (p: usize)
        ensures
            p == self.pos(),
            0 <= self.pos() <= self.bytes().len(),
    {
        proof { use_type_invariant(self); }
        self.pos
    }

    /// The underlying slice.
    pub fn get_ref(&self) -> (r: &'a [u8])
        ensures
            r@ == self.bytes(),
    {
        self.inner
    }

    /// How many bytes lie between the position and the end.
    pub fn remaining(&self) -> (n: usize)
        ensures
            n == self.bytes().len() - self.pos(),
            0 <= self.pos() <= self.bytes().len(),
    {
        proof { use_type_invariant(self); }
        self.inner.len() - self.pos
    }

    /// Moves the position forward by `n` bytes.
    pub fn advance(&mut self, n: usize)
        requires
            n <= old(self).bytes().len() - old(self).pos(),
        ensures
            final(self).bytes() == old(self).bytes(),
            final(self).pos() == old(self).pos() + n,
    {
        proof { use_type_invariant(&*self); }
        self.pos = self.pos + n;
    }

    /// Moves the position to `pos`.
    pub fn set_position(&mut self, pos: u64)
        requires
            pos <= old(self).bytes().len(),
        ensures
            final(self).bytes() == old(self).bytes(),
            final(self).pos() == pos,
    {
        proof { use_type_invariant(&*self); }
        self.pos = pos as usize;
    }

    /// Reads the byte at the position and moves past it.
    pub fn get_u8(&mut self) -> (b: u8)
        requires
            old(self).pos() < old(self).bytes().len(),
        ensures
            final(self).bytes() == old(self).bytes(),
            final(self).pos() == old(self).pos() + 1,
            b == old(self).bytes()[old(self).pos()],
    {
        let b = self.inner[self.pos];
        self.pos = self.pos + 1;
        b
    }

    /// Copies the `n` bytes at the position and moves past them.
    pub fn copy_to_vec(&mut self, n: usize) -> (v: Vec<u8>)
        requires
            n <= old(self).bytes().len() - old(self).pos(),
        ensures
            final(self).bytes() == old(self).bytes(),
            final(self).pos() == old(self).pos() + n,
            v@ == old(self).bytes().subrange(old(self).pos(), old(self).pos() + n),
    {
        proof { use_type_invariant(&*self); }
        let start = self.pos;
        let end = start + n;
        let mut v: Vec<u8> = Vec::new();
        let mut i = start;
        while i < end
            invariant
                start <= i <= end <= self.inner@.len(),
                v@ == self.inner@.subrange(start as int, i as int),
            decreases end - i,
        {
            v.push(self.inner[i]);
            i = i + 1;
            assert(v@ =~= self.inner@.subrange(start as int, i as int));
        }
        self.pos = end;
        v
    }
}

} // verus!
