use vstd::prelude::*;

verus! {

/// A read position over a borrowed run of bytes.
///
/// The position may lie past the end of the data; nothing can be read there.
pub struct ByteStream<'a> {
    pub data: &'a [u8],
    pub pos: usize,
}

impl<'a> ByteStream<'a> {
    /// The bytes that have not been read yet.
    pub open spec fn rest(&self) -> Seq<u8> {
        if self.pos <= self.data@.len() {
            self.data@.subrange(self.pos as int, self.data@.len() as int)
        } else {
            Seq::empty()
        }
    }

    /// A stream at the start of `data`.
    pub fn new(data: &'a [u8]) -> (s: Self)
        ensures
            s.data@ == data@,
            s.pos == 0,
    {
        ByteStream { data, pos: 0 }
    }

    /// The number of bytes read or skipped so far.
    pub fn stream_position(&self) -> (p: usize)
        ensures
            p == self.pos,
    {
        self.pos
    }

    /// Moves the read position to `pos`, counted from the start of the data.
    pub fn seek(&mut self, pos: usize)
        ensures
            final(self).data == old(self).data,
            final(self).pos == pos,
    {
        self.pos = pos;
    }

    /// The number of bytes that can still be read.
    pub fn remaining(&self) -> (n: usize)
        ensures
            n == self.rest().len(),
    {
        if self.pos <= self.data.len() {
            self.data.len() - self.pos
        } else {
            0
        }
    }
}

} // verus!
