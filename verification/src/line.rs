//! The line reader: turns a raw byte stream into discrete lines, terminated
//! by a carriage return, with live (optionally masked) echo and
//! bounded-length truncation.

use vstd::prelude::*;

verus! {

/// The carriage return that terminates a line.
pub const LINE_END: u8 = 13;

/// The character echoed in place of a typed byte while masking is active.
pub const MASK_CHAR: u8 = 42;

/// The byte echoed back for one typed byte: the terminator echoes itself; any
/// other byte echoes itself in plain mode and exactly one mask character in
/// masked mode, whatever the typed byte was.
pub open spec fn echo_byte(b: u8, masked: bool) -> u8 {
    if b == 13 {
        13
    } else if masked {
        42
    } else {
        b
    }
}

/// Collects typed bytes into a line buffer of fixed capacity. A line is
/// complete when the terminator arrives (the terminator is not part of the
/// line) or when the buffer fills up, which truncates the line rather than
/// failing.
pub struct LineReader {
    buf: Vec<u8>,
    cap: usize,
}

impl View for LineReader {
    type V = Seq<u8>;

    closed spec fn view(&self) -> Seq<u8> {
        self.buf@
    }
}

impl LineReader {
    /// The fixed line capacity.
    pub closed spec fn capacity(&self) -> nat {
        self.cap as nat
    }

    /// The buffer always has room for at least one more byte: reaching the
    /// capacity hands the line out at once.
    pub open spec fn wf(&self) -> bool {
        self@.len() < self.capacity()
    }

    /// An empty reader for lines of at most `cap` bytes.
    pub fn new(cap: usize) -> (r: LineReader)
        requires
            cap >= 1,
        ensures
            r@ == Seq::<u8>::empty(),
            r.capacity() == cap,
            r.wf(),
    {
        LineReader { buf: Vec::new(), cap }
    }

    /// Consumes one typed byte. Returns the byte to echo back — exactly one
    /// per typed byte, masked if asked — and the completed line, if this byte
    /// completed one: the terminator ends the line without joining it, and a
    /// byte that fills the buffer ends the line as a truncated prefix.
    pub fn feed(&mut self, byte: u8, masked: bool) -> (r: (u8, Option<Vec<u8>>))
        requires
            old(self).wf(),
        ensures
            final(self).wf(),
            final(self).capacity() == old(self).capacity(),
            r.0 == echo_byte(byte, masked),
            byte == 13 ==> (r.1 matches Some(line) && line@ == old(self)@ && final(self)@
                == Seq::<u8>::empty()),
            byte != 13 && old(self)@.len() + 1 == old(self).capacity() ==> (r.1 matches Some(line)
                && line@ == old(self)@.push(byte) && final(self)@ == Seq::<u8>::empty()),
            byte != 13 && old(self)@.len() + 1 < old(self).capacity() ==> r.1 is None
                && final(self)@ == old(self)@.push(byte),
    {
        if byte == LINE_END {
            let mut line: Vec<u8> = Vec::new();
            core::mem::swap(&mut line, &mut self.buf);
            return (LINE_END, Some(line));
        }
        let echo = if masked {
            MASK_CHAR
        } else {
            byte
        };
        self.buf.push(byte);
        if self.buf.len() == self.cap {
            let mut line: Vec<u8> = Vec::new();
            core::mem::swap(&mut line, &mut self.buf);
            return (echo, Some(line));
        }
        (echo, None)
    }
}

} // verus!
