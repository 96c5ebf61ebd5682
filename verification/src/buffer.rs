//! A growable byte window over the input with a consumed-prefix cursor.
//!
//! The reader keeps the bytes it has pulled from its source in a `Buffer`
//! and consumes them from the front.  The buffer's view is the sequence of
//! bytes that have been pulled but not yet consumed.

use vstd::prelude::*;

verus! {

/// A contiguous byte window with a read cursor.
pub struct Buffer {
    data: Vec<u8>,
    cursor: usize,
}

impl View for Buffer {
    type V = Seq<u8>;

    /// The bytes available to the parser: everything pulled in and not yet
    /// consumed.
    closed spec fn view(&self) -> Seq<u8> {
        self.data@.skip(self.cursor as int)
    }
}

impl Buffer {
    /// The cursor never runs past the end of the backing storage.
    pub closed spec fn wf(&self) -> bool {
        self.cursor <= self.data@.len()
    }

    pub fn new() -> (r: Buffer)
        ensures
            r.wf(),
            r@ == Seq::<u8>::empty(),
    {
        Buffer { data: Vec::new(), cursor: 0 }
    }

    /// How many bytes are available.
    pub fn len(&self) -> (r: usize)
        requires
            self.wf(),
        ensures
            r == self@.len(),
    {
        self.data.len() - self.cursor
    }

    /// The available byte at offset `i` from the cursor.
    pub fn get(&self, i: usize) -> (r: u8)
        requires
            self.wf(),
            i < self@.len(),
        ensures
            r == self@[i as int],
    {
        let n = self.data.len();
        proof {
            assert(self@.len() == n - self.cursor);
        }
        self.data[self.cursor + i]
    }

    /// A slice of the available bytes from offset `from` to offset `to`.
    pub fn slice(&self, from: usize, to: usize) -> (r: &[u8])
        requires
            self.wf(),
            from <= to <= self@.len(),
        ensures
            r@ == self@.subrange(from as int, to as int),
    {
        let n = self.data.len();
        proof {
            assert(self@.len() == n - self.cursor);
        }
        let r = vstd::slice::slice_subrange(
            self.data.as_slice(),
            self.cursor + from,
            self.cursor + to,
        );
        assert(r@ =~= self@.subrange(from as int, to as int));
        r
    }

    /// A copy of the available bytes from offset `from` to offset `to`.
    pub fn copy_range(&self, from: usize, to: usize) -> (r: Vec<u8>)
        requires
            self.wf(),
            from <= to <= self@.len(),
        ensures
            r@ == self@.subrange(from as int, to as int),
    {
        let mut out: Vec<u8> = Vec::new();
        let mut i: usize = from;
        while i < to
            invariant
                self.wf(),
                from <= i <= to <= self@.len(),
                out@ == self@.subrange(from as int, i as int),
            decreases to - i,
        {
            out.push(self.get(i));
            assert(out@ =~= self@.subrange(from as int, i + 1 as int));
            i = i + 1;
        }
        out
    }

    /// Advance the cursor by `k` bytes.
    pub fn consume(&mut self, k: usize)
        requires
            old(self).wf(),
            k <= old(self)@.len(),
        ensures
            final(self).wf(),
            final(self)@ == old(self)@.skip(k as int),
    {
        let n = self.data.len();
        proof {
            assert(old(self)@.len() == n - self.cursor);
        }
        self.cursor = self.cursor + k;
        assert(self@ =~= old(self)@.skip(k as int));
    }

    /// Consume exactly one byte.
    pub fn bump(&mut self)
        requires
            old(self).wf(),
            old(self)@.len() >= 1,
        ensures
            final(self).wf(),
            final(self)@ == old(self)@.skip(1),
    {
        self.consume(1);
    }

    /// The first available byte, if any.
    pub fn peek(&self) -> (r: Option<u8>)
        requires
            self.wf(),
        ensures
            match r {
                Some(b) => self@.len() > 0 && b == self@[0],
                None => self@.len() == 0,
            },
    {
        if self.cursor < self.data.len() {
            Some(self.data[self.cursor])
        } else {
            None
        }
    }

    /// Drop the consumed prefix, rebasing the cursor to zero.  The available
    /// bytes are unchanged; only the backing storage shrinks.
    pub fn discard_data(&mut self)
        requires
            old(self).wf(),
        ensures
            final(self).wf(),
            final(self)@ == old(self)@,
    {
        if self.cursor > 0 {
            let mut kept: Vec<u8> = Vec::new();
            let mut i: usize = self.cursor;
            while i < self.data.len()
                invariant
                    old(self).wf(),
                    self.data@ == old(self).data@,
                    self.cursor == old(self).cursor,
                    self.cursor <= i <= self.data@.len(),
                    kept@ == self.data@.subrange(self.cursor as int, i as int),
                decreases self.data@.len() - i,
            {
                let b = self.data[i];
                kept.push(b);
                assert(kept@ =~= self.data@.subrange(self.cursor as int, i + 1 as int));
                i = i + 1;
            }
            self.data = kept;
            self.cursor = 0;
            assert(self@ =~= old(self)@);
        }
    }

    /// Append one byte at the back of the window.
    pub fn push_back(&mut self, b: u8)
        requires
            old(self).wf(),
        ensures
            final(self).wf(),
            final(self)@ == old(self)@.push(b),
    {
        self.data.push(b);
        assert(self@ =~= old(self)@.push(b));
    }
}

} // verus!
