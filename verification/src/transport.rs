//! In-memory byte transports: a sink that collects written bytes and a
//! cursor that hands out a byte stream.  File or network transports stay
//! outside the library; they exchange whole byte vectors with these types.

use vstd::prelude::*;

verus! {

/// A byte sink.  Everything written is kept, in order.
pub struct Writer {
    pub buf: Vec<u8>,
}

impl Writer {
    /// All bytes accepted so far.
    pub open spec fn bytes(&self) -> Seq<u8> {
        self.buf@
    }

    pub fn new() -> (w: Writer)
        ensures
            w.bytes() == Seq::<u8>::empty(),
    {
        Writer { buf: Vec::new() }
    }

    /// Appends one byte.
    pub fn write_byte(&mut self, b: u8) -> (n: usize)
        ensures
            final(self).bytes() == old(self).bytes().push(b),
            n == 1,
    {
        self.buf.push(b);
        1
    }

    /// Appends a whole buffer and reports how many bytes were moved:
    /// this sink always accepts all of them.
    pub fn write(&mut self, bytes: &[u8]) -> (n: usize)
        ensures
            final(self).bytes() == old(self).bytes() + bytes@,
            n == bytes@.len(),
    {
        let mut i: usize = 0;
        while i < bytes.len()
            invariant
                i <= bytes@.len(),
                self.bytes() == old(self).bytes() + bytes@.take(i as int),
            decreases bytes@.len() - i,
        {
            self.buf.push(bytes[i]);
            i = i + 1;
            assert(bytes@.take(i as int) == bytes@.take(i - 1).push(bytes@[i - 1]));
        }
        assert(bytes@.take(i as int) == bytes@);
        i
    }
}

/// A byte source: a buffer and a cursor that only moves forward.
pub struct Reader {
    pub data: Vec<u8>,
    pub pos: usize,
}

impl Reader {
    /// The cursor never passes the end of the buffer.
    pub open spec fn wf(&self) -> bool {
        self.pos <= self.data@.len()
    }

    /// The bytes not yet consumed.
    pub open spec fn remaining(&self) -> Seq<u8> {
        self.data@.skip(self.pos as int)
    }

    pub fn new(data: Vec<u8>) -> (r: Reader)
        ensures
            r.wf(),
            r.remaining() == data@,
            r.data == data,
            r.pos == 0,
    {
        let r = Reader { data, pos: 0 };
        assert(r.remaining() =~= r.data@);
        r
    }

    /// How many bytes are left to read.
    pub fn len(&self) -> (n: usize)
        requires
            self.wf(),
        ensures
            n == self.remaining().len(),
    {
        self.data.len() - self.pos
    }

    /// Reads exactly `n` bytes, or reports that fewer than `n` are left
    /// (in which case nothing is consumed).
    pub fn read(&mut self, n: usize) -> (r: Option<Vec<u8>>)
        requires
            old(self).wf(),
        ensures
            final(self).wf(),
            final(self).data == old(self).data,
            match r {
                Some(v) => {
                    &&& n <= old(self).remaining().len()
                    &&& v@ == old(self).remaining().take(n as int)
                    &&& final(self).pos == old(self).pos + n
                },
                None => {
                    &&& n > old(self).remaining().len()
                    &&& final(self).pos == old(self).pos
                },
            },
    {
        let dlen: usize = self.data.len();
        if n > dlen - self.pos {
            return None;
        }
        let mut v: Vec<u8> = Vec::new();
        let mut i: usize = 0;
        while i < n
            invariant
                i <= n,
                dlen == self.data@.len(),
                self.pos + n <= dlen,
                self.wf(),
                v@ == self.data@.subrange(self.pos as int, self.pos + i),
            decreases n - i,
        {
            v.push(self.data[self.pos + i]);
            i = i + 1;
            assert(self.data@.subrange(self.pos as int, self.pos + i) == self.data@.subrange(
                self.pos as int,
                self.pos + i - 1,
            ).push(self.data@[self.pos + i - 1]));
        }
        self.pos = self.pos + n;
        assert(v@ =~= old(self).remaining().take(n as int));
        Some(v)
    }
}

} // verus!
