//! The persistent storage medium, modelled as a byte region with random
//! access at 16-byte block granularity.

use vstd::prelude::*;

verus! {

/// A byte sequence with one span `b` written over it at offset `off`.
pub open spec fn splice_at(s: Seq<u8>, off: int, b: Seq<u8>) -> Seq<u8> {
    s.take(off) + b + s.skip(off + b.len())
}

/// How a splice reads back, byte by byte: the written span where it lies, the
/// old bytes everywhere else.
pub proof fn lemma_splice_at_index(s: Seq<u8>, off: int, b: Seq<u8>, k: int)
    requires
        0 <= off,
        off + b.len() <= s.len(),
        0 <= k < s.len(),
    ensures
        splice_at(s, off, b).len() == s.len(),
        off <= k < off + b.len() ==> splice_at(s, off, b)[k] == b[k - off],
        !(off <= k < off + b.len()) ==> splice_at(s, off, b)[k] == s[k],
{
}

/// A block-erasable storage region. It stands for the fixed region of the
/// persistent medium that the store owns; offsets are relative to the start
/// of that region.
pub struct Medium {
    bytes: Vec<u8>,
}

impl View for Medium {
    type V = Seq<u8>;

    closed spec fn view(&self) -> Seq<u8> {
        self.bytes@
    }
}

impl Medium {
    /// A fresh region of `size` bytes, all zero (never set).
    pub fn new(size: usize) -> (r: Medium)
        ensures
            r@ == Seq::new(size as nat, |i: int| 0u8),
    {
        Medium { bytes: vec![0u8; size] }
    }

    /// A region holding previously persisted bytes.
    pub fn from_bytes(bytes: Vec<u8>) -> (r: Medium)
        ensures
            r@ == bytes@,
    {
        Medium { bytes }
    }

    /// The raw contents, for persisting elsewhere.
    pub fn into_bytes(self) -> (r: Vec<u8>)
        ensures
            r@ == self@,
    {
        self.bytes
    }

    pub fn len(&self) -> (r: usize)
        ensures
            r == self@.len(),
    {
        self.bytes.len()
    }

    /// Reads the 16-byte block at `offset`.
    pub fn read_block(&self, offset: usize) -> (r: Vec<u8>)
        requires
            offset + 16 <= self@.len(),
        ensures
            r@ == self@.subrange(offset as int, offset as int + 16),
    {
        let n = self.bytes.len();
        let mut out: Vec<u8> = Vec::new();
        let mut j: usize = 0;
        while j < 16
            invariant
                j <= 16,
                offset + 16 <= n,
                n == self@.len(),
                out@ =~= self@.subrange(offset as int, offset as int + j as int),
            decreases 16 - j,
        {
            out.push(self.bytes[offset + j]);
            j += 1;
            proof {
                assert(out@ =~= self@.subrange(offset as int, offset as int + j as int));
            }
        }
        out
    }

    /// Writes the 16-byte `block` at `offset`, leaving every other byte of
    /// the region unchanged.
    pub fn write_block(&mut self, offset: usize, block: &[u8])
        requires
            block@.len() == 16,
            offset + 16 <= old(self)@.len(),
        ensures
            final(self)@ == splice_at(old(self)@, offset as int, block@),
            final(self)@.len() == old(self)@.len(),
    {
        let ghost m0 = self@;
        let n = self.bytes.len();
        let mut j: usize = 0;
        while j < 16
            invariant
                j <= 16,
                block@.len() == 16,
                offset + 16 <= n,
                n == m0.len(),
                self@.len() == m0.len(),
                self@ =~= m0.take(offset as int) + block@.take(j as int) + m0.skip(
                    offset as int + j as int,
                ),
            decreases 16 - j,
        {
            self.bytes[offset + j] = block[j];
            j += 1;
            proof {
                assert(self@ =~= m0.take(offset as int) + block@.take(j as int) + m0.skip(
                    offset as int + j as int,
                ));
            }
        }
        proof {
            assert(block@.take(16) =~= block@);
            assert(self@ =~= splice_at(m0, offset as int, block@));
        }
    }
}

} // verus!
