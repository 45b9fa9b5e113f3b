use vstd::prelude::*;

verus! {

/// A forward-only reader over a byte slice, with one byte of lookahead.
///
/// Its view is the sequence of bytes that are still to be read.
pub struct ByteIter<'a> {
    bytes: &'a [u8],
    pos: usize,
}

impl<'a> View for ByteIter<'a> {
    type V = Seq<u8>;

    closed spec fn view(&self) -> Seq<u8> {
        if self.pos <= self.bytes@.len() {
            self.bytes@.skip(self.pos as int)
        } else {
            Seq::empty()
        }
    }
}

impl<'a> ByteIter<'a> {
    /// A reader positioned at the first byte of `bytes`.
    pub fn new(bytes: &'a [u8]) -> (r: Self)
        ensures
            r@ == bytes@,
    {
        let r = ByteIter { bytes, pos: 0 };
        assert(r@ =~= bytes@);
        r
    }

    /// The number of bytes still to be read.
    pub fn len(&self) -> (r: usize)
        ensures
            r == self@.len(),
    {
        if self.pos <= self.bytes.len() {
            self.bytes.len() - self.pos
        } else {
            0
        }
    }

    /// The next byte, without consuming it.
    pub fn peek(&self) -> (r: Option<u8>)
        ensures
            self@.len() == 0 ==> r is None,
            self@.len() > 0 ==> r == Some(self@[0]),
    {
        if self.pos < self.bytes.len() {
            Some(self.bytes[self.pos])
        } else {
            None
        }
    }

    /// Consumes and returns the next byte.
    pub fn next(&mut self) -> (r: Option<u8>)
        ensures
            old(self)@.len() == 0 ==> r is None && final(self)@ == old(self)@,
            old(self)@.len() > 0 ==> r == Some(old(self)@[0]) && final(self)@ == old(self)@.drop_first(),
    {
        if self.pos < self.bytes.len() {
            let b = self.bytes[self.pos];
            self.pos = self.pos + 1;
            assert(self@ =~= old(self)@.drop_first());
            Some(b)
        } else {
            None
        }
    }
}

} // verus!
