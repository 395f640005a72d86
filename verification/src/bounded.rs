//! A byte buffer with a fixed capacity, the in-memory stand-in for the
//! fixed-size buffers that decrypted values and typed lines are collected in.

use vstd::prelude::*;

verus! {

/// A growable byte buffer that never holds more than `capacity()` bytes;
/// appending to a full buffer fails and leaves it unchanged.
pub struct ByteBuf {
    data: Vec<u8>,
    cap: usize,
}

impl View for ByteBuf {
    type V = Seq<u8>;

    closed spec fn view(&self) -> Seq<u8> {
        self.data@
    }
}

impl ByteBuf {
    /// The fixed capacity the buffer was created with.
    pub closed spec fn capacity(&self) -> nat {
        self.cap as nat
    }

    /// The contents never exceed the capacity.
    pub open spec fn wf(&self) -> bool {
        self@.len() <= self.capacity()
    }

    /// An empty buffer that can hold up to `cap` bytes.
    pub fn new(cap: usize) -> (r: ByteBuf)
        ensures
            r@ == Seq::<u8>::empty(),
            r.capacity() == cap,
            r.wf(),
    {
        ByteBuf { data: Vec::new(), cap }
    }

    pub fn len(&self) -> (r: usize)
        ensures
            r == self@.len(),
    {
        self.data.len()
    }

    pub fn cap(&self) -> (r: usize)
        ensures
            r == self.capacity(),
    {
        self.cap
    }

    /// Empties the buffer; the capacity stays.
    pub fn clear(&mut self)
        ensures
            final(self)@ == Seq::<u8>::empty(),
            final(self).capacity() == old(self).capacity(),
            final(self).wf(),
    {
        self.data.clear();
    }

    /// Appends one byte; fails exactly when the buffer is full, leaving the
    /// contents unchanged.
    pub fn push(&mut self, b: u8) -> (r: Result<(), ()>)
        requires
            old(self).wf(),
        ensures
            final(self).capacity() == old(self).capacity(),
            final(self).wf(),
            (r is Ok) <==> old(self)@.len() < old(self).capacity(),
            r is Ok ==> final(self)@ == old(self)@.push(b),
            r is Err ==> final(self)@ == old(self)@,
    {
        if self.data.len() < self.cap {
            self.data.push(b);
            Ok(())
        } else {
            Err(())
        }
    }

    pub fn as_slice(&self) -> (r: &[u8])
        ensures
            r@ == self@,
    {
        self.data.as_slice()
    }

    /// The contents, giving the buffer up.
    pub fn into_vec(self) -> (r: Vec<u8>)
        ensures
            r@ == self@,
    {
        self.data
    }
}

} // verus!
