//! The read buffer of a uTP stream.

use vstd::prelude::*;

verus! {

/// Data that was received and not read yet. Its view is that data.
pub struct UtpStream {
    read_buf: Vec<u8>,
    read_pos: usize,
}

impl View for UtpStream {
    type V = Seq<u8>;

    closed spec fn view(&self) -> Seq<u8> {
        self.read_buf@.skip(self.read_pos as int)
    }
}

impl UtpStream {
    /// The position lies in the buffer.
    pub closed spec fn wf(&self) -> bool {
        self.read_pos <= self.read_buf@.len()
    }

    /// A stream from which nothing was received.
    pub fn new() -> (s: UtpStream)
        ensures
            s.wf(),
            s@ == Seq::<u8>::empty(),
    {
        let s = UtpStream { read_buf: Vec::new(), read_pos: 0 };
        assert(s@ =~= Seq::<u8>::empty());
        s
    }

    /// Whether everything was read.
    pub fn is_exhausted(&self) -> (r: bool)
        requires
            self.wf(),
        ensures
            r == (self@.len() == 0),
    {
        self.read_pos >= self.read_buf.len()
    }

    /// Take in received data once everything was read.
    pub fn refill(&mut self, data: Vec<u8>)
        requires
            old(self).wf(),
            old(self)@.len() == 0,
        ensures
            final(self).wf(),
            final(self)@ == data@,
    {
        self.read_buf = data;
        self.read_pos = 0;
        assert(self@ =~= data@);
    }

    /// Read up to `max` bytes.
    pub fn read(&mut self, max: usize) -> (r: Vec<u8>)
        requires
            old(self).wf(),
        ensures
            final(self).wf(),
            r@.len() == if old(self)@.len() <= max {
                old(self)@.len() as int
            } else {
                max as int
            },
            r@ + final(self)@ == old(self)@,
    {
        let left: usize = self.read_buf.len() - self.read_pos;
        let n: usize = if left <= max {
            left
        } else {
            max
        };
        let end: usize = self.read_pos + n;
        let part = vstd::slice::slice_subrange(self.read_buf.as_slice(), self.read_pos, end);
        let r = crate::seqs::copy_bytes(part);
        self.read_pos = end;
        assert(r@ + self@ =~= old(self)@);
        r
    }
}

} // verus!
