//! A segment's contents together with its write position.
use vstd::prelude::*;

verus! {

/// The bytes of a segment, appended to only, and the offset at its end.
pub struct WriterWithPos {
    pub data: Vec<u8>,
    pub pos: u64,
}

impl WriterWithPos {
    /// The position is the end of the bytes written so far.
    pub open spec fn wf(&self) -> bool {
        self.pos == self.bytes().len()
    }

    pub open spec fn bytes(&self) -> Seq<u8> {
        self.data@
    }

    /// Starts at the end of the existing contents `inner`.
    pub fn new(inner: Vec<u8>) -> (r: WriterWithPos)
        ensures
            r.wf(),
            r.bytes() == inner@,
    {
        let pos = inner.len() as u64;
        WriterWithPos { data: inner, pos }
    }

    /// Appends `buf` and advances the position by its length, which it returns.
    pub fn write(&mut self, buf: &[u8]) -> (r: usize)
        requires
            old(self).wf(),
        ensures
            final(self).wf(),
            final(self).bytes() == old(self).bytes() + buf@,
            r == buf@.len(),
            final(self).pos == old(self).pos + buf@.len(),
    {
        crate::codec::push_all(&mut self.data, buf);
        self.pos = self.data.len() as u64;
        buf.len()
    }

    /// The bytes written so far.
    pub fn as_slice(&self) -> (r: &[u8])
        ensures
            r@ == self.bytes(),
    {
        self.data.as_slice()
    }

    /// Number of bytes written so far.
    pub fn len(&self) -> (r: usize)
        ensures
            r == self.bytes().len(),
    {
        self.data.len()
    }
}

} // verus!
