//! The encrypted entry store: entry descriptors, the consecutive block
//! layout, and the encrypted write / decrypted read operations over the
//! storage medium.

use crate::bounded::ByteBuf;
use crate::cipher::{aes_dec, aes_enc, decrypt_block, encrypt_block};
use crate::medium::{lemma_splice_at_index, splice_at, Medium};
use vstd::prelude::*;

verus! {

// ------------------------------------------------------------------
// The mathematical model of one entry's bytes.
// ------------------------------------------------------------------
/// Block `i` of `v`, zero-padded to 16 bytes.
pub open spec fn padded(v: Seq<u8>, i: int) -> Seq<u8> {
    Seq::new(16, |j: int| if 16 * i + j < v.len() { v[16 * i + j] } else { 0u8 })
}

/// Every byte is ASCII (below 128).
pub open spec fn seq_all_ascii(b: Seq<u8>) -> bool {
    forall|j: int| 0 <= j < b.len() ==> b[j] < 128
}

/// The index of the first zero byte of `b`, or `b.len()` if there is none.
pub open spec fn first_nul(b: Seq<u8>) -> int
    decreases b.len(),
{
    if b.len() == 0 {
        0
    } else if b[0] == 0 {
        0
    } else {
        1 + first_nul(b.drop_first())
    }
}

/// What `first_nul` returns: the first zero byte's index, or the length.
pub proof fn lemma_first_nul(b: Seq<u8>)
    ensures
        0 <= first_nul(b) <= b.len(),
        forall|j: int| 0 <= j < first_nul(b) ==> b[j] != 0,
        first_nul(b) < b.len() ==> b[first_nul(b)] == 0,
    decreases b.len(),
{
    if b.len() == 0 {
    } else if b[0] == 0 {
    } else {
        lemma_first_nul(b.drop_first());
        assert forall|j: int| 0 <= j < first_nul(b) implies b[j] != 0 by {
            if j > 0 {
                assert(b[j] == b.drop_first()[j - 1]);
            }
        }
    }
}

/// How decrypted blocks decode into a value, reading blocks in order with an
/// output buffer of capacity `cap` already holding `acc`: a block with a
/// non-ASCII byte fails the read; otherwise its bytes are appended up to the
/// first zero byte, which ends the value; appending beyond `cap` fails.
pub open spec fn decode_blocks(blocks: Seq<Seq<u8>>, acc: Seq<u8>, cap: nat) -> Option<Seq<u8>>
    decreases blocks.len(),
{
    if blocks.len() == 0 {
        Some(acc)
    } else {
        let b = blocks[0];
        if !seq_all_ascii(b) {
            None
        } else {
            let z = first_nul(b);
            if z < b.len() {
                if acc.len() + z <= cap {
                    Some(acc + b.take(z))
                } else {
                    None
                }
            } else {
                if acc.len() + b.len() <= cap {
                    decode_blocks(blocks.drop_first(), acc + b, cap)
                } else {
                    None
                }
            }
        }
    }
}

/// The decrypted 16-byte blocks of a span of `n` blocks at `off` in `med`,
/// under `key`.
pub open spec fn entry_plains(key: Seq<u8>, med: Seq<u8>, off: int, n: nat) -> Seq<Seq<u8>> {
    Seq::new(n, |i: int| aes_dec(key, med.subrange(off + 16 * i, off + 16 * i + 16)))
}

/// What an encrypted write of `value` over a span of `n` blocks at `off`
/// leaves behind: each block of the span holds the ciphertext of the
/// corresponding zero-padded block of `value`, and every byte outside the
/// span is untouched.
pub open spec fn is_store_result(
    old_med: Seq<u8>,
    new_med: Seq<u8>,
    key: Seq<u8>,
    value: Seq<u8>,
    off: int,
    n: nat,
) -> bool {
    &&& new_med.len() == old_med.len()
    &&& forall|k: int|
        0 <= k < old_med.len() && !(off <= k < off + 16 * n) ==> new_med[k] == old_med[k]
    &&& forall|i: int|
        0 <= i < n ==> new_med.subrange(off + 16 * i, off + 16 * i + 16) == aes_enc(
            key,
            #[trigger] padded(value, i),
        )
}

// ------------------------------------------------------------------
// Entry descriptors.
// ------------------------------------------------------------------
/// Static metadata for one configuration slot: its lookup name, its capacity
/// in 16-byte cipher blocks, its byte offset in the storage region, the
/// prompt shown when the operator is asked for a new value, and whether input
/// and listings must hide the value.
#[derive(Debug)]
pub struct ConfigEntry {
    pub name: Vec<u8>,
    pub n_blocks: usize,
    pub offset: usize,
    pub question: Vec<u8>,
    pub secret: bool,
}

/// True when every byte of `b` is ASCII.
pub fn all_ascii(b: &[u8]) -> (r: bool)
    ensures
        r == seq_all_ascii(b@),
{
    let n = b.len();
    let mut j: usize = 0;
    while j < n
        invariant
            j <= n,
            n == b@.len(),
            forall|k: int| 0 <= k < j ==> b@[k] < 128,
        decreases n - j,
    {
        if b[j] >= 128 {
            return false;
        }
        j += 1;
    }
    true
}

/// The index of the first zero byte of `b`, or `b.len()` if there is none.
pub fn find_nul(b: &[u8]) -> (r: usize)
    ensures
        r == first_nul(b@),
{
    proof {
        lemma_first_nul(b@);
    }
    let n = b.len();
    let mut j: usize = 0;
    while j < n
        invariant
            j <= n,
            n == b@.len(),
            forall|k: int| 0 <= k < j ==> b@[k] != 0,
            0 <= first_nul(b@) <= b@.len(),
            forall|k: int| 0 <= k < first_nul(b@) ==> b@[k] != 0,
            first_nul(b@) < b@.len() ==> b@[first_nul(b@)] == 0,
        decreases n - j,
    {
        if b[j] == 0 {
            proof {
                assert(!(first_nul(b@) < j)) by {
                    if first_nul(b@) < j {
                        assert(b@[first_nul(b@)] != 0);
                    }
                }
                assert(!(first_nul(b@) > j));
            }
            return j;
        }
        j += 1;
    }
    proof {
        assert(first_nul(b@) == b@.len()) by {
            if first_nul(b@) < b@.len() {
                assert(b@[first_nul(b@)] != 0);
            }
        }
    }
    n
}

/// Appends the first `m` bytes of `b` to `output`, which has room for them.
fn append_prefix(output: &mut ByteBuf, b: &[u8], m: usize)
    requires
        m <= b@.len(),
        old(output).wf(),
        old(output)@.len() + m <= old(output).capacity(),
    ensures
        final(output).capacity() == old(output).capacity(),
        final(output).wf(),
        final(output)@ == old(output)@ + b@.take(m as int),
{
    let ghost acc0 = output@;
    let mut j: usize = 0;
    while j < m
        invariant
            j <= m,
            m <= b@.len(),
            output.wf(),
            output.capacity() == old(output).capacity(),
            acc0.len() + m <= output.capacity(),
            output@ == acc0 + b@.take(j as int),
        decreases m - j,
    {
        let _res = output.push(b[j]);
        proof {
            assert(_res is Ok);
            assert(output@ =~= acc0 + b@.take(j as int + 1));
        }
        j += 1;
    }
}

/// True when the byte slices hold the same bytes.
pub fn bytes_eq(a: &[u8], b: &[u8]) -> (r: bool)
    ensures
        r == (a@ == b@),
{
    if a.len() != b.len() {
        return false;
    }
    let n = a.len();
    let mut i: usize = 0;
    while i < n
        invariant
            n == a@.len() == b@.len(),
            i <= n,
            forall|k: int| 0 <= k < i ==> a@[k] == b@[k],
        decreases n - i,
    {
        if a[i] != b[i] {
            return false;
        }
        i += 1;
    }
    proof {
        assert(a@ =~= b@);
    }
    true
}

impl ConfigEntry {
    /// A descriptor for a value of at most `max_len` bytes: it spans
    /// `ceil(max_len / 16)` blocks. The offset starts at zero and is assigned
    /// when the store is built.
    pub fn new(name: Vec<u8>, max_len: usize, question: Vec<u8>, secret: bool) -> (r: ConfigEntry)
        requires
            1 <= max_len,
        ensures
            r.name == name,
            r.n_blocks == (max_len + 15) / 16,
            1 <= r.n_blocks,
            r.offset == 0,
            r.question == question,
            r.secret == secret,
    {
        let n_blocks = (max_len - 1) / 16 + 1;
        proof {
            assert((max_len - 1) / 16 + 1 == (max_len + 15) / 16) by (nonlinear_arith)
                requires
                    1 <= max_len,
            ;
        }
        ConfigEntry { name, n_blocks, offset: 0, question, secret }
    }

    /// True when `name` is this entry's lookup name.
    pub fn check_name(&self, name: &[u8]) -> (r: bool)
        ensures
            r == (name@ == self.name@),
    {
        bytes_eq(name, self.name.as_slice())
    }

    /// The entry's span lies inside the medium and its size fits the machine.
    pub open spec fn span_in(&self, med: Seq<u8>) -> bool {
        self.offset + 16 * self.n_blocks <= med.len()
    }

    /// Encrypts `value` into this entry's span, one zero-padded 16-byte block
    /// at a time, failing (and leaving the medium unchanged) exactly when
    /// `value` does not fit the span.
    pub fn store(&self, key: &[u8], medium: &mut Medium, value: &[u8]) -> (r: Result<(), ()>)
        requires
            key@.len() == 16,
            self.span_in(old(medium)@),
        ensures
            final(medium)@.len() == old(medium)@.len(),
            (r is Ok) <==> value@.len() <= 16 * self.n_blocks,
            r is Err ==> final(medium)@ == old(medium)@,
            r is Ok ==> is_store_result(
                old(medium)@,
                final(medium)@,
                key@,
                value@,
                self.offset as int,
                self.n_blocks as nat,
            ),
            r is Ok ==> entry_plains(
                key@,
                final(medium)@,
                self.offset as int,
                self.n_blocks as nat,
            ) == Seq::new(self.n_blocks as nat, |i: int| padded(value@, i)),
    {
        let med_len = medium.len();
        if value.len() > 16 * self.n_blocks {
            return Err(());
        }
        let ghost m0 = medium@;
        let off = self.offset;
        let n = self.n_blocks;
        let mut i: usize = 0;
        while i < n
            invariant
                i <= n,
                key@.len() == 16,
                off + 16 * n <= med_len,
                med_len == m0.len(),
                medium@.len() == m0.len(),
                forall|k: int|
                    0 <= k < m0.len() && !(off <= k < off + 16 * i) ==> medium@[k] == m0[k],
                forall|b: int|
                    0 <= b < i ==> medium@.subrange(off + 16 * b, off + 16 * b + 16) == aes_enc(
                        key@,
                        #[trigger] padded(value@, b),
                    ),
                forall|b: int|
                    0 <= b < i ==> aes_dec(
                        key@,
                        medium@.subrange(off + 16 * b, off + 16 * b + 16),
                    ) == padded(value@, b),
            decreases n - i,
        {
            let start = 16 * i;
            let mut block: Vec<u8> = Vec::new();
            let mut j: usize = 0;
            while j < 16
                invariant
                    j <= 16,
                    start == 16 * i,
                    start + 16 <= med_len,
                    block@.len() == j,
                    forall|k: int| 0 <= k < j ==> block@[k] == padded(value@, i as int)[k],
                decreases 16 - j,
            {
                let idx = start + j;
                if idx < value.len() {
                    block.push(value[idx]);
                } else {
                    block.push(0u8);
                }
                j += 1;
            }
            proof {
                assert(block@ =~= padded(value@, i as int));
            }
            let ct = encrypt_block(key, block.as_slice());
            let ghost m_before = medium@;
            medium.write_block(off + 16 * i, ct.as_slice());
            proof {
                assert forall|k: int|
                    0 <= k < m0.len() && !(off <= k < off + 16 * (i + 1)) implies medium@[k]
                    == m0[k] by {
                    lemma_splice_at_index(m_before, off + 16 * i, ct@, k);
                }
                assert forall|b: int|
                    0 <= b <= i implies medium@.subrange(off + 16 * b, off + 16 * b + 16)
                    == aes_enc(key@, #[trigger] padded(value@, b)) by {
                    assert forall|k: int|
                        off + 16 * b <= k < off + 16 * b + 16 implies medium@[k] == aes_enc(
                        key@,
                        padded(value@, b),
                    )[k - (off + 16 * b)] by {
                        lemma_splice_at_index(m_before, off + 16 * i, ct@, k);
                        if b < i {
                            assert(medium@[k] == m_before[k]);
                            assert(m_before.subrange(off + 16 * b, off + 16 * b + 16) == aes_enc(
                                key@,
                                padded(value@, b),
                            ));
                            assert(m_before[k] == m_before.subrange(
                                off + 16 * b,
                                off + 16 * b + 16,
                            )[k - (off + 16 * b)]);
                        } else {
                            assert(medium@[k] == ct@[k - (off + 16 * i)]);
                        }
                    }
                    assert(medium@.subrange(off + 16 * b, off + 16 * b + 16) =~= aes_enc(
                        key@,
                        padded(value@, b),
                    ));
                }
            }
            i += 1;
        }
        proof {
            assert(entry_plains(key@, medium@, off as int, n as nat) =~= Seq::new(
                n as nat,
                |b: int| padded(value@, b),
            ));
        }
        Ok(())
    }

    /// Decrypts this entry's span block by block into `output` (cleared
    /// first), stopping at the first zero byte. Fails exactly when a
    /// decrypted block holds a non-ASCII byte — the wrong-key and corruption
    /// signal — or when the value exceeds `output`'s capacity.
    pub fn read(&self, key: &[u8], medium: &Medium, output: &mut ByteBuf) -> (r: Result<(), ()>)
        requires
            key@.len() == 16,
            self.span_in(medium@),
        ensures
            final(output).capacity() == old(output).capacity(),
            final(output).wf(),
            ({
                let d = decode_blocks(
                    entry_plains(key@, medium@, self.offset as int, self.n_blocks as nat),
                    Seq::empty(),
                    old(output).capacity(),
                );
                &&& ((r is Ok) <==> (d is Some))
                &&& (r is Ok ==> final(output)@ == d.unwrap())
            }),
    {
        output.clear();
        let med_len = medium.len();
        let ghost cap = output.capacity();
        let ghost plains = entry_plains(key@, medium@, self.offset as int, self.n_blocks as nat);
        let off = self.offset;
        let n = self.n_blocks;
        proof {
            assert(plains.skip(0) =~= plains);
        }
        let mut i: usize = 0;
        while i < n
            invariant
                i <= n,
                key@.len() == 16,
                off == self.offset,
                n == self.n_blocks,
                off + 16 * n <= med_len,
                med_len == medium@.len(),
                output.wf(),
                output.capacity() == cap,
                cap == old(output).capacity(),
                plains == entry_plains(key@, medium@, off as int, n as nat),
                decode_blocks(plains, Seq::empty(), cap) == decode_blocks(
                    plains.skip(i as int),
                    output@,
                    cap,
                ),
            decreases n - i,
        {
            let ct = medium.read_block(off + 16 * i);
            let pt = decrypt_block(key, ct.as_slice());
            proof {
                assert(plains.len() == n);
                assert(plains[i as int] == pt@);
                assert(plains.skip(i as int)[0] == plains[i as int]);
                assert(plains.skip(i as int).drop_first() =~= plains.skip(i as int + 1));
            }
            // The whole block must be ASCII, whether or not the value ends in it.
            if !all_ascii(pt.as_slice()) {
                proof {
                    assert(decode_blocks(plains.skip(i as int), output@, cap) is None);
                }
                return Err(());
            }
            proof {
                lemma_first_nul(pt@);
            }
            let ghost acc0 = output@;
            let z = find_nul(pt.as_slice());
            let room = output.cap() - output.len();
            if z < 16 {
                // The value ends in this block, at the first zero byte.
                if z <= room {
                    append_prefix(output, pt.as_slice(), z);
                    proof {
                        assert(decode_blocks(plains.skip(i as int), acc0, cap) == Some(
                            acc0 + pt@.take(z as int),
                        ));
                    }
                    return Ok(());
                } else {
                    proof {
                        assert(acc0.len() + z > cap);
                        assert(decode_blocks(plains.skip(i as int), acc0, cap) is None);
                    }
                    return Err(());
                }
            } else {
                // No terminator: the whole block belongs to the value.
                if 16 <= room {
                    append_prefix(output, pt.as_slice(), 16);
                    proof {
                        assert(pt@.take(16) =~= pt@);
                        assert(decode_blocks(plains.skip(i as int), acc0, cap) == decode_blocks(
                            plains.skip(i as int + 1),
                            acc0 + pt@,
                            cap,
                        ));
                    }
                } else {
                    proof {
                        assert(first_nul(pt@) == 16);
                        assert(acc0.len() + 16 > cap);
                        assert(decode_blocks(plains.skip(i as int), acc0, cap) is None);
                    }
                    return Err(());
                }
            }
            i += 1;
        }
        proof {
            assert(plains.skip(n as int) =~= Seq::<Seq<u8>>::empty());
        }
        Ok(())
    }
}

// ------------------------------------------------------------------
// The consecutive block layout.
// ------------------------------------------------------------------
/// The byte offset of entry `i` when entries are laid out consecutively in
/// declaration order: the sum of the block spans of all earlier entries.
pub open spec fn layout_offset(s: Seq<ConfigEntry>, i: int) -> int
    decreases i,
{
    if i <= 0 {
        0
    } else {
        layout_offset(s, i - 1) + 16 * s[i - 1].n_blocks
    }
}

/// The total size in bytes of the laid-out entries.
pub open spec fn layout_size(s: Seq<ConfigEntry>) -> int {
    layout_offset(s, s.len() as int)
}

/// Every entry's recorded offset is its place in the consecutive layout.
pub open spec fn layout_ok(s: Seq<ConfigEntry>) -> bool {
    forall|i: int| 0 <= i < s.len() ==> (#[trigger] s[i]).offset == layout_offset(s, i)
}

/// The layout offset reads only the block counts of the earlier entries.
pub proof fn lemma_layout_offset_same_blocks(s1: Seq<ConfigEntry>, s2: Seq<ConfigEntry>, i: int)
    requires
        0 <= i,
        forall|k: int| 0 <= k < i ==> (#[trigger] s1[k]).n_blocks == s2[k].n_blocks,
    ensures
        layout_offset(s1, i) == layout_offset(s2, i),
    decreases i,
{
    if i > 0 {
        lemma_layout_offset_same_blocks(s1, s2, i - 1);
    }
}

pub proof fn lemma_layout_offset_monotone(s: Seq<ConfigEntry>, i: int, j: int)
    requires
        0 <= i <= j,
    ensures
        layout_offset(s, i) <= layout_offset(s, j),
    decreases j,
{
    if i < j {
        lemma_layout_offset_monotone(s, i, j - 1);
    }
}

/// An entry's span ends within the laid-out total.
pub proof fn lemma_span_in_layout(s: Seq<ConfigEntry>, i: int)
    requires
        layout_ok(s),
        0 <= i < s.len(),
    ensures
        0 <= s[i].offset,
        s[i].offset + 16 * s[i].n_blocks <= layout_size(s),
{
    lemma_layout_offset_monotone(s, 0, i);
    lemma_layout_offset_monotone(s, i + 1, s.len() as int);
}

/// Entries laid out consecutively never overlap: an earlier entry's whole
/// span ends at or before a later entry's offset.
pub proof fn lemma_layout_no_overlap(s: Seq<ConfigEntry>, i: int, j: int)
    requires
        layout_ok(s),
        0 <= i < j < s.len(),
    ensures
        s[i].offset + 16 * s[i].n_blocks <= s[j].offset,
{
    lemma_layout_offset_monotone(s, i + 1, j);
}

// ------------------------------------------------------------------
// Name lookup: the first declared entry with a matching name wins.
// ------------------------------------------------------------------
/// The first entry of `s` whose name is `name`.
pub open spec fn find_entry(s: Seq<ConfigEntry>, name: Seq<u8>) -> Option<ConfigEntry>
    decreases s.len(),
{
    if s.len() == 0 {
        None
    } else if s[0].name@ == name {
        Some(s[0])
    } else {
        find_entry(s.drop_first(), name)
    }
}

/// A found entry is a member of the sequence and bears the looked-up name.
pub proof fn lemma_find_entry_member(s: Seq<ConfigEntry>, name: Seq<u8>)
    requires
        find_entry(s, name) is Some,
    ensures
        exists|i: int|
            0 <= i < s.len() && s[i] == find_entry(s, name).unwrap() && s[i].name@ == name,
    decreases s.len(),
{
    if s.len() > 0 && s[0].name@ != name {
        lemma_find_entry_member(s.drop_first(), name);
        let i = choose|i: int|
            0 <= i < s.drop_first().len() && s.drop_first()[i] == find_entry(s, name).unwrap()
                && s.drop_first()[i].name@ == name;
        assert(s[i + 1] == s.drop_first()[i]);
    }
}

/// Lookup skips a prefix with no matching name.
pub proof fn lemma_find_entry_skip(s: Seq<ConfigEntry>, name: Seq<u8>, i: int)
    requires
        0 <= i <= s.len(),
        forall|k: int| 0 <= k < i ==> (#[trigger] s[k]).name@ != name,
    ensures
        find_entry(s, name) == find_entry(s.skip(i), name),
    decreases i,
{
    if i > 0 {
        lemma_find_entry_skip(s, name, i - 1);
        assert(s.skip(i - 1).len() > 0);
        assert(s.skip(i - 1)[0] == s[i - 1]);
        assert(s[i - 1].name@ != name);
        assert(find_entry(s.skip(i - 1), name) == find_entry(s.skip(i - 1).drop_first(), name));
        assert(s.skip(i - 1).drop_first() =~= s.skip(i));
    } else {
        assert(s.skip(0) =~= s);
    }
}

// ------------------------------------------------------------------
// The store.
// ------------------------------------------------------------------
/// The names and prompts of the built-in network-credential entries.
pub open spec fn wifi_ssid_name() -> Seq<u8> {
    seq![119u8, 105, 102, 105, 95, 115, 115, 105, 100]
}

pub open spec fn wifi_pass_name() -> Seq<u8> {
    seq![119u8, 105, 102, 105, 95, 112, 97, 115, 115]
}

pub open spec fn wifi_autostart_name() -> Seq<u8> {
    seq![119u8, 105, 102, 105, 95, 97, 117, 116, 111, 115, 116, 97, 114, 116]
}

/// The value of the autostart entry that enables the boot-time handoff.
pub open spec fn yes_value() -> Seq<u8> {
    seq![121u8, 101, 115]
}

/// The name of the network-identifier entry, as bytes.
pub fn wifi_ssid_name_bytes() -> (r: Vec<u8>)
    ensures
        r@ == wifi_ssid_name(),
{
    let r: Vec<u8> = vec![119u8, 105, 102, 105, 95, 115, 115, 105, 100];
    proof {
        assert(r@ =~= wifi_ssid_name());
    }
    r
}

/// The name of the network-secret entry, as bytes.
pub fn wifi_pass_name_bytes() -> (r: Vec<u8>)
    ensures
        r@ == wifi_pass_name(),
{
    let r: Vec<u8> = vec![119u8, 105, 102, 105, 95, 112, 97, 115, 115];
    proof {
        assert(r@ =~= wifi_pass_name());
    }
    r
}

/// The name of the autostart entry, as bytes.
pub fn wifi_autostart_name_bytes() -> (r: Vec<u8>)
    ensures
        r@ == wifi_autostart_name(),
{
    let r: Vec<u8> = vec![119u8, 105, 102, 105, 95, 97, 117, 116, 111, 115, 116, 97, 114, 116];
    proof {
        assert(r@ =~= wifi_autostart_name());
    }
    r
}

/// The autostart-enabling value, as bytes.
pub fn yes_value_bytes() -> (r: Vec<u8>)
    ensures
        r@ == yes_value(),
{
    let r: Vec<u8> = vec![121u8, 101, 115];
    proof {
        assert(r@ =~= yes_value());
    }
    r
}

/// The prompts of the built-in network-credential entries.
pub open spec fn wifi_ssid_question() -> Seq<u8> {
    seq![87u8, 105, 102, 105, 32, 83, 83, 73, 68]
}

pub open spec fn wifi_pass_question() -> Seq<u8> {
    seq![87u8, 105, 102, 105, 32, 80, 97, 115, 115, 119, 111, 114, 100]
}

pub open spec fn wifi_autostart_question() -> Seq<u8> {
    seq![
        83u8, 101, 116, 32, 116, 111, 32, 39, 121, 101, 115, 39, 32, 105, 102, 32, 119, 105, 102,
        105, 32, 115, 104, 111, 117, 108, 100, 32, 98, 101, 32, 99, 111, 110, 110, 101, 99, 116,
        101, 100, 32, 97, 117, 116, 111, 109, 97, 116, 105, 99, 97, 108, 108, 121, 32, 97, 116, 32,
        98, 111, 111, 116,
    ]
}

fn wifi_ssid_question_bytes() -> (r: Vec<u8>)
    ensures
        r@ == wifi_ssid_question(),
{
    let r: Vec<u8> = vec![87u8, 105, 102, 105, 32, 83, 83, 73, 68];
    proof {
        assert(r@ =~= wifi_ssid_question());
    }
    r
}

fn wifi_pass_question_bytes() -> (r: Vec<u8>)
    ensures
        r@ == wifi_pass_question(),
{
    let r: Vec<u8> = vec![87u8, 105, 102, 105, 32, 80, 97, 115, 115, 119, 111, 114, 100];
    proof {
        assert(r@ =~= wifi_pass_question());
    }
    r
}

fn wifi_autostart_question_bytes() -> (r: Vec<u8>)
    ensures
        r@ == wifi_autostart_question(),
{
    let r: Vec<u8> = vec![
        83u8, 101, 116, 32, 116, 111, 32, 39, 121, 101, 115, 39, 32, 105, 102, 32, 119, 105, 102,
        105, 32, 115, 104, 111, 117, 108, 100, 32, 98, 101, 32, 99, 111, 110, 110, 101, 99, 116,
        101, 100, 32, 97, 117, 116, 111, 109, 97, 116, 105, 99, 97, 108, 108, 121, 32, 97, 116, 32,
        98, 111, 111, 116,
    ];
    proof {
        assert(r@ =~= wifi_autostart_question());
    }
    r
}

/// Entry `e`'s span in `med` holds the encryption of the empty value: every
/// block is the ciphertext of an all-zero block, and decrypts back to one.
pub open spec fn span_reset(med: Seq<u8>, key: Seq<u8>, e: ConfigEntry) -> bool {
    &&& entry_plains(key, med, e.offset as int, e.n_blocks as nat) == Seq::new(
        e.n_blocks as nat,
        |b: int| padded(Seq::<u8>::empty(), b),
    )
    &&& forall|b: int|
        0 <= b < e.n_blocks ==> med.subrange(
            e.offset + 16 * b,
            e.offset + 16 * b + 16,
        ) == aes_enc(key, #[trigger] padded(Seq::<u8>::empty(), b))
}

/// One step of resetting every entry in layout order: storing the empty
/// value into entry `i` resets its span, keeps every earlier span reset, and
/// leaves all bytes past the span untouched.
pub proof fn lemma_reset_step(
    all: Seq<ConfigEntry>,
    m0: Seq<u8>,
    m_before: Seq<u8>,
    m_after: Seq<u8>,
    key: Seq<u8>,
    i: int,
)
    requires
        layout_ok(all),
        0 <= i < all.len(),
        layout_size(all) <= m0.len(),
        m_before.len() == m0.len(),
        is_store_result(
            m_before,
            m_after,
            key,
            Seq::<u8>::empty(),
            all[i].offset as int,
            all[i].n_blocks as nat,
        ),
        entry_plains(key, m_after, all[i].offset as int, all[i].n_blocks as nat) == Seq::new(
            all[i].n_blocks as nat,
            |b: int| padded(Seq::<u8>::empty(), b),
        ),
        forall|j: int| 0 <= j < i ==> span_reset(m_before, key, #[trigger] all[j]),
        forall|k: int| layout_offset(all, i) <= k < m0.len() ==> m_before[k] == m0[k],
    ensures
        m_after.len() == m0.len(),
        forall|j: int| 0 <= j <= i ==> span_reset(m_after, key, #[trigger] all[j]),
        forall|k: int| layout_offset(all, i + 1) <= k < m0.len() ==> m_after[k] == m0[k],
{
    let off_i = all[i].offset as int;
    let nb_i = all[i].n_blocks as int;
    lemma_span_in_layout(all, i);
    assert(off_i == layout_offset(all, i));
    assert(off_i + 16 * nb_i == layout_offset(all, i + 1));
    assert forall|j: int| 0 <= j <= i implies span_reset(m_after, key, #[trigger] all[j]) by {
        if j < i {
            lemma_span_in_layout(all, j);
            lemma_layout_no_overlap(all, j, i);
            let off_j = all[j].offset as int;
            let nb_j = all[j].n_blocks as int;
            assert forall|b: int| 0 <= b < nb_j implies #[trigger] m_after.subrange(
                off_j + 16 * b,
                off_j + 16 * b + 16,
            ) == m_before.subrange(off_j + 16 * b, off_j + 16 * b + 16) by {
                assert(m_after.subrange(off_j + 16 * b, off_j + 16 * b + 16) =~= m_before.subrange(
                    off_j + 16 * b,
                    off_j + 16 * b + 16,
                ));
            }
            assert(entry_plains(key, m_after, off_j, all[j].n_blocks as nat) =~= entry_plains(
                key,
                m_before,
                off_j,
                all[j].n_blocks as nat,
            ));
        }
    }
    assert forall|k: int| layout_offset(all, i + 1) <= k < m0.len() implies m_after[k]
        == m0[k] by {
        assert(m_after[k] == m_before[k]);
    }
}

/// How storing `input` under `name` takes the store from `m0` to `m1`: the
/// first matching entry's span holds the new ciphertext; when no entry
/// matches or the value does not fit, nothing changes.
pub open spec fn stored_state(m0: ConfigMenu, m1: ConfigMenu, name: Seq<u8>, input: Seq<u8>) -> bool {
    match find_entry(m0.all_entries(), name) {
        Option::None => m1.medium_view() == m0.medium_view(),
        Option::Some(e) => if input.len() <= 16 * e.n_blocks {
            &&& is_store_result(
                m0.medium_view(),
                m1.medium_view(),
                m0.key_view(),
                input,
                e.offset as int,
                e.n_blocks as nat,
            )
            &&& entry_plains(m0.key_view(), m1.medium_view(), e.offset as int, e.n_blocks as nat)
                == Seq::new(e.n_blocks as nat, |b: int| padded(input, b))
        } else {
            m1.medium_view() == m0.medium_view()
        },
    }
}

/// How resetting every entry takes the store from `m0` to `m1`: every span
/// holds the encryption of the empty value and the bytes past the layout are
/// untouched.
pub open spec fn reset_state(m0: ConfigMenu, m1: ConfigMenu) -> bool {
    &&& m1.medium_view().len() == m0.medium_view().len()
    &&& forall|j: int|
        0 <= j < m0.all_entries().len() ==> span_reset(
            m1.medium_view(),
            m0.key_view(),
            #[trigger] m0.all_entries()[j],
        )
    &&& forall|k: int|
        layout_size(m0.all_entries()) <= k < m0.medium_view().len() ==> m1.medium_view()[k]
            == m0.medium_view()[k]
}

/// A found entry exists wherever some entry bears the name.
pub proof fn lemma_find_entry_some(s: Seq<ConfigEntry>, name: Seq<u8>, i: int)
    requires
        0 <= i < s.len(),
        s[i].name@ == name,
    ensures
        find_entry(s, name) is Some,
    decreases i,
{
    if s[0].name@ != name {
        assert(s.drop_first()[i - 1] == s[i]);
        lemma_find_entry_some(s.drop_first(), name, i - 1);
    }
}

/// A captured credential pair, ready to hand off to a network consumer.
pub struct Credentials {
    pub ssid: Vec<u8>,
    pub pass: Vec<u8>,
}

/// The encrypted entry store: the ordered entry descriptors (the declared
/// ones, then the three built-in network-credential ones), the derived key,
/// and the storage region they live in.
pub struct ConfigMenu {
    pub entries: Vec<ConfigEntry>,
    pub wifi_ssid: ConfigEntry,
    pub wifi_pass: ConfigEntry,
    pub wifi_autostart: ConfigEntry,
    pub key: Vec<u8>,
    pub medium: Medium,
}

impl ConfigMenu {
    /// The derived key the store encrypts with.
    pub open spec fn key_view(&self) -> Seq<u8> {
        self.key@
    }

    /// The bytes of the storage region.
    pub open spec fn medium_view(&self) -> Seq<u8> {
        self.medium@
    }

    /// Every descriptor, in lookup order: the declared entries first, then
    /// the built-in network-credential entries.
    pub open spec fn all_entries(&self) -> Seq<ConfigEntry> {
        self.entries@ + seq![self.wifi_ssid, self.wifi_pass, self.wifi_autostart]
    }

    /// The store's invariant: a 16-byte key, offsets that follow the
    /// consecutive layout, and a region large enough for every span.
    pub open spec fn wf(&self) -> bool {
        &&& self.key_view().len() == 16
        &&& self.entries@.len() + 3 <= usize::MAX
        &&& layout_ok(self.all_entries())
        &&& layout_size(self.all_entries()) <= self.medium_view().len()
    }

    /// What a read of entry `e` decodes to, with an output buffer of
    /// capacity `cap`.
    pub open spec fn read_result(&self, e: ConfigEntry, cap: nat) -> Option<Seq<u8>> {
        decode_blocks(
            entry_plains(self.key_view(), self.medium_view(), e.offset as int, e.n_blocks as nat),
            Seq::empty(),
            cap,
        )
    }

    /// Gives up the store and hands back its storage region, e.g. to persist
    /// it elsewhere and rebuild the store over it later.
    pub fn into_medium(self) -> (r: Medium)
        ensures
            r@ == self.medium_view(),
    {
        self.medium
    }

    /// The size of the whole layout: the declared entries followed by the
    /// three built-in ones (2 + 4 + 2 blocks).
    fn total_size(values: &Vec<ConfigEntry>) -> (t: usize)
        requires
            layout_size(values@) + 128 <= usize::MAX,
        ensures
            t == layout_size(values@) + 128,
    {
        let n = values.len();
        let mut off: usize = 0;
        let mut i: usize = 0;
        while i < n
            invariant
                i <= n,
                n == values@.len(),
                off == layout_offset(values@, i as int),
                layout_size(values@) + 128 <= usize::MAX,
            decreases n - i,
        {
            proof {
                lemma_layout_offset_monotone(values@, i as int + 1, n as int);
            }
            off = off + 16 * values[i].n_blocks;
            i += 1;
        }
        off + 128
    }

    /// Builds the store over a region holding previously persisted bytes:
    /// assigns each declared entry its consecutive offset and appends the
    /// three built-in network-credential entries after them. The region must
    /// cover the whole layout.
    pub fn with_medium(values: Vec<ConfigEntry>, key: Vec<u8>, medium: Medium) -> (r: ConfigMenu)
        requires
            key@.len() == 16,
            values@.len() + 3 <= usize::MAX,
            layout_size(values@) + 128 <= usize::MAX,
            layout_size(values@) + 128 <= medium@.len(),
        ensures
            r.wf(),
            r.key_view() == key@,
            r.medium_view() == medium@,
            r.entries@.len() == values@.len(),
            forall|i: int|
                0 <= i < values@.len() ==> {
                    &&& (#[trigger] r.entries@[i]).name == values@[i].name
                    &&& r.entries@[i].n_blocks == values@[i].n_blocks
                    &&& r.entries@[i].question == values@[i].question
                    &&& r.entries@[i].secret == values@[i].secret
                },
            r.wifi_ssid.name@ == wifi_ssid_name(),
            r.wifi_ssid.n_blocks == 2,
            r.wifi_ssid.question@ == wifi_ssid_question(),
            !r.wifi_ssid.secret,
            r.wifi_pass.name@ == wifi_pass_name(),
            r.wifi_pass.n_blocks == 4,
            r.wifi_pass.question@ == wifi_pass_question(),
            r.wifi_pass.secret,
            r.wifi_autostart.name@ == wifi_autostart_name(),
            r.wifi_autostart.n_blocks == 2,
            r.wifi_autostart.question@ == wifi_autostart_question(),
            !r.wifi_autostart.secret,
            layout_size(r.all_entries()) == layout_size(values@) + 128,
    {
        let mut entries = values;
        let ghost values0 = entries@;
        let n = entries.len();
        let mut off: usize = 0;
        let mut i: usize = 0;
        while i < n
            invariant
                i <= n,
                n == entries@.len() == values0.len(),
                off == layout_offset(values0, i as int),
                layout_size(values0) + 128 <= usize::MAX,
                forall|k: int|
                    0 <= k < n ==> {
                        &&& (#[trigger] entries@[k]).name == values0[k].name
                        &&& entries@[k].n_blocks == values0[k].n_blocks
                        &&& entries@[k].question == values0[k].question
                        &&& entries@[k].secret == values0[k].secret
                    },
                forall|k: int|
                    0 <= k < i ==> (#[trigger] entries@[k]).offset == layout_offset(values0, k),
            decreases n - i,
        {
            proof {
                lemma_layout_offset_monotone(values0, i as int + 1, n as int);
            }
            let nb = entries[i].n_blocks;
            entries[i].offset = off;
            off = off + 16 * nb;
            i += 1;
        }
        proof {
            lemma_layout_offset_monotone(values0, n as int, n as int);
        }
        let mut wifi_ssid = ConfigEntry::new(wifi_ssid_name_bytes(), 32, wifi_ssid_question_bytes(), false);
        wifi_ssid.offset = off;
        let mut wifi_pass = ConfigEntry::new(wifi_pass_name_bytes(), 64, wifi_pass_question_bytes(), true);
        wifi_pass.offset = off + 32;
        let mut wifi_autostart = ConfigEntry::new(
            wifi_autostart_name_bytes(),
            32,
            wifi_autostart_question_bytes(),
            false,
        );
        wifi_autostart.offset = off + 96;
        let r = ConfigMenu { entries, wifi_ssid, wifi_pass, wifi_autostart, key, medium };
        proof {
            let all = r.all_entries();
            assert(all.len() == n + 3);
            assert forall|k: int| 0 <= k < all.len() implies (#[trigger] all[k]).offset
                == layout_offset(all, k) by {
                if k < n {
                    assert(all[k] == r.entries@[k]);
                    lemma_layout_offset_same_blocks(all, values0, k);
                } else {
                    lemma_layout_offset_same_blocks(all, values0, n as int);
                    assert(layout_offset(all, n as int) == off);
                    if k == n {
                    } else if k == n + 1 {
                        assert(layout_offset(all, n as int + 1) == off + 16 * all[n as int].n_blocks);
                    } else {
                        assert(layout_offset(all, n as int + 1) == off + 16 * all[n as int].n_blocks);
                        assert(layout_offset(all, n as int + 2) == off + 32 + 16 * all[n as int
                            + 1].n_blocks);
                    }
                }
            }
            assert(layout_offset(all, n as int + 2) == off + 96);
            assert(layout_size(all) == layout_offset(all, n as int + 3) == off + 96 + 16 * all[n
                as int + 2].n_blocks);
            lemma_layout_offset_same_blocks(all, values0, n as int);
        }
        r
    }

    /// Builds the store over a fresh zeroed region exactly covering the
    /// layout, assigning each declared entry its consecutive offset and
    /// appending the three built-in network-credential entries after them.
    pub fn new(values: Vec<ConfigEntry>, key: Vec<u8>) -> (r: ConfigMenu)
        requires
            key@.len() == 16,
            values@.len() + 3 <= usize::MAX,
            layout_size(values@) + 128 <= usize::MAX,
        ensures
            r.wf(),
            r.key_view() == key@,
            r.medium_view() == Seq::new((layout_size(values@) + 128) as nat, |i: int| 0u8),
            r.entries@.len() == values@.len(),
            forall|i: int|
                0 <= i < values@.len() ==> {
                    &&& (#[trigger] r.entries@[i]).name == values@[i].name
                    &&& r.entries@[i].n_blocks == values@[i].n_blocks
                    &&& r.entries@[i].question == values@[i].question
                    &&& r.entries@[i].secret == values@[i].secret
                },
            r.wifi_ssid.name@ == wifi_ssid_name(),
            r.wifi_ssid.n_blocks == 2,
            !r.wifi_ssid.secret,
            r.wifi_pass.name@ == wifi_pass_name(),
            r.wifi_pass.n_blocks == 4,
            r.wifi_pass.secret,
            r.wifi_autostart.name@ == wifi_autostart_name(),
            r.wifi_autostart.n_blocks == 2,
            !r.wifi_autostart.secret,
    {
        let total = Self::total_size(&values);
        let medium = Medium::new(total);
        Self::with_medium(values, key, medium)
    }

    /// The entry at `index` among the declared entries, by position.
    pub fn get_entry_index(&self, index: usize) -> (r: Result<&ConfigEntry, ()>)
        ensures
            (r is Ok) <==> index < self.entries@.len(),
            r matches Ok(e) ==> *e == self.entries@[index as int],
    {
        if index >= self.entries.len() {
            return Err(());
        }
        Ok(&self.entries[index])
    }

    /// The first entry whose name is `name`, scanning the declared entries in
    /// order and then the built-in network-credential entries.
    pub fn get_entry(&self, name: &[u8]) -> (r: Result<&ConfigEntry, ()>)
        ensures
            (r is Ok) <==> (find_entry(self.all_entries(), name@) is Some),
            r matches Ok(e) ==> Some(*e) == find_entry(self.all_entries(), name@),
    {
        let ghost all = self.all_entries();
        let n = self.entries.len();
        let mut i: usize = 0;
        while i < n
            invariant
                i <= n,
                n == self.entries@.len(),
                all == self.all_entries(),
                forall|k: int| 0 <= k < i ==> (#[trigger] self.entries@[k]).name@ != name@,
            decreases n - i,
        {
            if self.entries[i].check_name(name) {
                proof {
                    assert(forall|k: int|
                        0 <= k < i ==> (#[trigger] all[k]).name@ != name@ && all[k]
                            == self.entries@[k]);
                    lemma_find_entry_skip(all, name@, i as int);
                    assert(all.skip(i as int)[0] == all[i as int]);
                    assert(all[i as int] == self.entries@[i as int]);
                }
                return Ok(&self.entries[i]);
            }
            i += 1;
        }
        let ghost w = all.skip(n as int);
        proof {
            assert(forall|k: int|
                0 <= k < n ==> (#[trigger] all[k]).name@ != name@ && all[k] == self.entries@[k]);
            lemma_find_entry_skip(all, name@, n as int);
            assert(w.len() == 3);
            assert(w[0] == self.wifi_ssid);
            assert(w.drop_first()[0] == self.wifi_pass);
            assert(w.drop_first().drop_first()[0] == self.wifi_autostart);
            assert(w.drop_first().drop_first().drop_first() =~= Seq::<ConfigEntry>::empty());
        }
        if self.wifi_ssid.check_name(name) {
            proof {
                assert(find_entry(w, name@) == Some(self.wifi_ssid));
            }
            return Ok(&self.wifi_ssid);
        }
        if self.wifi_pass.check_name(name) {
            proof {
                assert(find_entry(w, name@) == find_entry(w.drop_first(), name@));
                assert(find_entry(w.drop_first(), name@) == Some(self.wifi_pass));
            }
            return Ok(&self.wifi_pass);
        }
        if self.wifi_autostart.check_name(name) {
            proof {
                assert(find_entry(w, name@) == find_entry(w.drop_first(), name@));
                assert(find_entry(w.drop_first(), name@) == find_entry(
                    w.drop_first().drop_first(),
                    name@,
                ));
                assert(find_entry(w.drop_first().drop_first(), name@) == Some(
                    self.wifi_autostart,
                ));
            }
            return Ok(&self.wifi_autostart);
        }
        proof {
            assert(find_entry(w, name@) == find_entry(w.drop_first(), name@));
            assert(find_entry(w.drop_first(), name@) == find_entry(
                w.drop_first().drop_first(),
                name@,
            ));
            assert(find_entry(w.drop_first().drop_first(), name@) == find_entry(
                w.drop_first().drop_first().drop_first(),
                name@,
            ));
        }
        Err(())
    }

    /// Stores `input` encrypted into the first entry named `name`. Fails when
    /// no entry has that name or when `input` exceeds the entry's span; the
    /// region is untouched on failure.
    pub fn store_entry(&mut self, name: &[u8], input: &[u8]) -> (r: Result<(), ()>)
        requires
            old(self).wf(),
        ensures
            final(self).entries == old(self).entries,
            final(self).wifi_ssid == old(self).wifi_ssid,
            final(self).wifi_pass == old(self).wifi_pass,
            final(self).wifi_autostart == old(self).wifi_autostart,
            final(self).key == old(self).key,
            final(self).wf(),
            final(self).medium_view().len() == old(self).medium_view().len(),
            find_entry(old(self).all_entries(), name@) is None ==> r is Err
                && final(self).medium_view() == old(self).medium_view(),
            find_entry(old(self).all_entries(), name@) matches Some(e) ==> {
                &&& ((r is Ok) <==> input@.len() <= 16 * e.n_blocks)
                &&& (r is Err ==> final(self).medium_view() == old(self).medium_view())
                &&& (r is Ok ==> is_store_result(
                    old(self).medium_view(),
                    final(self).medium_view(),
                    old(self).key_view(),
                    input@,
                    e.offset as int,
                    e.n_blocks as nat,
                ))
                &&& (r is Ok ==> entry_plains(
                    old(self).key_view(),
                    final(self).medium_view(),
                    e.offset as int,
                    e.n_blocks as nat,
                ) == Seq::new(e.n_blocks as nat, |b: int| padded(input@, b)))
            },
    {
        let ghost all = self.all_entries();
        let n = self.entries.len();
        let mut i: usize = 0;
        while i < n
            invariant
                i <= n,
                n == self.entries@.len(),
                *self == *old(self),
                all == self.all_entries(),
                old(self).wf(),
                forall|k: int| 0 <= k < i ==> (#[trigger] self.entries@[k]).name@ != name@,
            decreases n - i,
        {
            if self.entries[i].check_name(name) {
                proof {
                    assert(forall|k: int|
                        0 <= k < i ==> (#[trigger] all[k]).name@ != name@ && all[k]
                            == self.entries@[k]);
                    lemma_find_entry_skip(all, name@, i as int);
                    assert(all.skip(i as int)[0] == all[i as int]);
                    assert(all[i as int] == self.entries@[i as int]);
                    lemma_span_in_layout(all, i as int);
                }
                let res = self.entries[i].store(self.key.as_slice(), &mut self.medium, input);
                return res;
            }
            i += 1;
        }
        let ghost w = all.skip(n as int);
        proof {
            assert(forall|k: int|
                0 <= k < n ==> (#[trigger] all[k]).name@ != name@ && all[k] == self.entries@[k]);
            lemma_find_entry_skip(all, name@, n as int);
            assert(w.len() == 3);
            assert(w[0] == self.wifi_ssid && w[0] == all[n as int]);
            assert(w.drop_first()[0] == self.wifi_pass && w.drop_first()[0] == all[n as int + 1]);
            assert(w.drop_first().drop_first()[0] == self.wifi_autostart
                && w.drop_first().drop_first()[0] == all[n as int + 2]);
            assert(w.drop_first().drop_first().drop_first() =~= Seq::<ConfigEntry>::empty());
            lemma_span_in_layout(all, n as int);
            lemma_span_in_layout(all, n as int + 1);
            lemma_span_in_layout(all, n as int + 2);
        }
        if self.wifi_ssid.check_name(name) {
            proof {
                assert(find_entry(w, name@) == Some(self.wifi_ssid));
            }
            let res = self.wifi_ssid.store(self.key.as_slice(), &mut self.medium, input);
            return res;
        }
        if self.wifi_pass.check_name(name) {
            proof {
                assert(find_entry(w, name@) == find_entry(w.drop_first(), name@));
                assert(find_entry(w.drop_first(), name@) == Some(self.wifi_pass));
            }
            let res = self.wifi_pass.store(self.key.as_slice(), &mut self.medium, input);
            return res;
        }
        if self.wifi_autostart.check_name(name) {
            proof {
                assert(find_entry(w, name@) == find_entry(w.drop_first(), name@));
                assert(find_entry(w.drop_first(), name@) == find_entry(
                    w.drop_first().drop_first(),
                    name@,
                ));
                assert(find_entry(w.drop_first().drop_first(), name@) == Some(
                    self.wifi_autostart,
                ));
            }
            let res = self.wifi_autostart.store(self.key.as_slice(), &mut self.medium, input);
            return res;
        }
        proof {
            assert(find_entry(w, name@) == find_entry(w.drop_first(), name@));
            assert(find_entry(w.drop_first(), name@) == find_entry(
                w.drop_first().drop_first(),
                name@,
            ));
            assert(find_entry(w.drop_first().drop_first(), name@) == find_entry(
                w.drop_first().drop_first().drop_first(),
                name@,
            ));
        }
        Err(())
    }

    /// Decrypts the value of the first entry named `name` into `output`.
    /// Fails when no entry has that name, when a decrypted block holds a
    /// non-ASCII byte, or when the value exceeds `output`'s capacity.
    pub fn read_entry(&mut self, name: &[u8], output: &mut ByteBuf) -> (r: Result<(), ()>)
        requires
            old(self).wf(),
        ensures
            *final(self) == *old(self),
            final(output).capacity() == old(output).capacity(),
            find_entry(old(self).all_entries(), name@) is None ==> r is Err && *final(output)
                == *old(output),
            find_entry(old(self).all_entries(), name@) matches Some(e) ==> {
                let d = old(self).read_result(e, old(output).capacity());
                &&& final(output).wf()
                &&& ((r is Ok) <==> (d is Some))
                &&& (r is Ok ==> final(output)@ == d.unwrap())
            },
    {
        let ghost all = self.all_entries();
        let n = self.entries.len();
        let mut i: usize = 0;
        while i < n
            invariant
                i <= n,
                n == self.entries@.len(),
                *self == *old(self),
                *output == *old(output),
                all == self.all_entries(),
                old(self).wf(),
                forall|k: int| 0 <= k < i ==> (#[trigger] self.entries@[k]).name@ != name@,
            decreases n - i,
        {
            if self.entries[i].check_name(name) {
                proof {
                    assert(forall|k: int|
                        0 <= k < i ==> (#[trigger] all[k]).name@ != name@ && all[k]
                            == self.entries@[k]);
                    lemma_find_entry_skip(all, name@, i as int);
                    assert(all.skip(i as int)[0] == all[i as int]);
                    assert(all[i as int] == self.entries@[i as int]);
                    lemma_span_in_layout(all, i as int);
                }
                let res = self.entries[i].read(self.key.as_slice(), &self.medium, output);
                return res;
            }
            i += 1;
        }
        let ghost w = all.skip(n as int);
        proof {
            assert(forall|k: int|
                0 <= k < n ==> (#[trigger] all[k]).name@ != name@ && all[k] == self.entries@[k]);
            lemma_find_entry_skip(all, name@, n as int);
            assert(w.len() == 3);
            assert(w[0] == self.wifi_ssid && w[0] == all[n as int]);
            assert(w.drop_first()[0] == self.wifi_pass && w.drop_first()[0] == all[n as int + 1]);
            assert(w.drop_first().drop_first()[0] == self.wifi_autostart
                && w.drop_first().drop_first()[0] == all[n as int + 2]);
            assert(w.drop_first().drop_first().drop_first() =~= Seq::<ConfigEntry>::empty());
            lemma_span_in_layout(all, n as int);
            lemma_span_in_layout(all, n as int + 1);
            lemma_span_in_layout(all, n as int + 2);
        }
        if self.wifi_ssid.check_name(name) {
            proof {
                assert(find_entry(w, name@) == Some(self.wifi_ssid));
            }
            let res = self.wifi_ssid.read(self.key.as_slice(), &self.medium, output);
            return res;
        }
        if self.wifi_pass.check_name(name) {
            proof {
                assert(find_entry(w, name@) == find_entry(w.drop_first(), name@));
                assert(find_entry(w.drop_first(), name@) == Some(self.wifi_pass));
            }
            let res = self.wifi_pass.read(self.key.as_slice(), &self.medium, output);
            return res;
        }
        if self.wifi_autostart.check_name(name) {
            proof {
                assert(find_entry(w, name@) == find_entry(w.drop_first(), name@));
                assert(find_entry(w.drop_first(), name@) == find_entry(
                    w.drop_first().drop_first(),
                    name@,
                ));
                assert(find_entry(w.drop_first().drop_first(), name@) == Some(
                    self.wifi_autostart,
                ));
            }
            let res = self.wifi_autostart.read(self.key.as_slice(), &self.medium, output);
            return res;
        }
        proof {
            assert(find_entry(w, name@) == find_entry(w.drop_first(), name@));
            assert(find_entry(w.drop_first(), name@) == find_entry(
                w.drop_first().drop_first(),
                name@,
            ));
            assert(find_entry(w.drop_first().drop_first(), name@) == find_entry(
                w.drop_first().drop_first().drop_first(),
                name@,
            ));
        }
        Err(())
    }

    /// Overwrites every entry — the declared ones and the built-in ones —
    /// with the empty value, invalidating all stored data. Used after a key
    /// change.
    pub fn reset_all(&mut self)
        requires
            old(self).wf(),
        ensures
            final(self).entries == old(self).entries,
            final(self).wifi_ssid == old(self).wifi_ssid,
            final(self).wifi_pass == old(self).wifi_pass,
            final(self).wifi_autostart == old(self).wifi_autostart,
            final(self).key == old(self).key,
            final(self).wf(),
            final(self).medium_view().len() == old(self).medium_view().len(),
            forall|j: int|
                0 <= j < old(self).all_entries().len() ==> span_reset(
                    final(self).medium_view(),
                    old(self).key_view(),
                    #[trigger] old(self).all_entries()[j],
                ),
            forall|k: int|
                layout_size(old(self).all_entries()) <= k < old(self).medium_view().len()
                    ==> final(self).medium_view()[k] == old(self).medium_view()[k],
    {
        let ghost all = self.all_entries();
        let ghost m0 = self.medium@;
        let ghost key0 = self.key@;
        let empty_val: Vec<u8> = Vec::new();
        let n = self.entries.len();
        let mut i: usize = 0;
        while i < n
            invariant
                i <= n,
                n == self.entries@.len(),
                self.entries == old(self).entries,
                self.wifi_ssid == old(self).wifi_ssid,
                self.wifi_pass == old(self).wifi_pass,
                self.wifi_autostart == old(self).wifi_autostart,
                self.key == old(self).key,
                all == old(self).all_entries(),
                m0 == old(self).medium_view(),
                key0 == old(self).key_view(),
                old(self).wf(),
                empty_val@ == Seq::<u8>::empty(),
                self.medium@.len() == m0.len(),
                forall|j: int| 0 <= j < i ==> span_reset(self.medium@, key0, #[trigger] all[j]),
                forall|k: int|
                    layout_offset(all, i as int) <= k < m0.len() ==> self.medium@[k] == m0[k],
            decreases n - i,
        {
            proof {
                assert(all[i as int] == self.entries@[i as int]);
                lemma_span_in_layout(all, i as int);
            }
            let ghost m_before = self.medium@;
            let res = self.entries[i].store(
                self.key.as_slice(),
                &mut self.medium,
                empty_val.as_slice(),
            );
            proof {
                assert(res is Ok);
                lemma_reset_step(all, m0, m_before, self.medium@, key0, i as int);
            }
            i += 1;
        }
        proof {
            assert(all[n as int] == self.wifi_ssid);
            lemma_span_in_layout(all, n as int);
        }
        let ghost m_before = self.medium@;
        let res = self.wifi_ssid.store(self.key.as_slice(), &mut self.medium, empty_val.as_slice());
        proof {
            assert(res is Ok);
            lemma_reset_step(all, m0, m_before, self.medium@, key0, n as int);
            assert(all[n as int + 1] == self.wifi_pass);
            lemma_span_in_layout(all, n as int + 1);
        }
        let ghost m_before = self.medium@;
        let res = self.wifi_pass.store(self.key.as_slice(), &mut self.medium, empty_val.as_slice());
        proof {
            assert(res is Ok);
            lemma_reset_step(all, m0, m_before, self.medium@, key0, n as int + 1);
            assert(all[n as int + 2] == self.wifi_autostart);
            lemma_span_in_layout(all, n as int + 2);
        }
        let ghost m_before = self.medium@;
        let res = self.wifi_autostart.store(
            self.key.as_slice(),
            &mut self.medium,
            empty_val.as_slice(),
        );
        proof {
            assert(res is Ok);
            lemma_reset_step(all, m0, m_before, self.medium@, key0, n as int + 2);
            assert(layout_size(all) == layout_offset(all, n as int + 3));
        }
    }

    /// The best-effort boot-time handoff: when the autostart entry decodes to
    /// the enabling value and both credential entries decode, yields the
    /// credential pair for an external consumer; yields nothing on any
    /// failure.
    pub fn autostart(&self) -> (r: Option<Credentials>)
        requires
            self.wf(),
        ensures
            ({
                let auto = self.read_result(self.wifi_autostart, 32);
                let ssid = self.read_result(self.wifi_ssid, 32);
                let pass = self.read_result(self.wifi_pass, 64);
                if auto == Some(yes_value()) && ssid is Some && pass is Some {
                    r matches Some(c) && c.ssid@ == ssid.unwrap() && c.pass@ == pass.unwrap()
                } else {
                    r is None
                }
            }),
    {
        let ghost all = self.all_entries();
        let n = self.entries.len();
        proof {
            assert(all[n as int] == self.wifi_ssid);
            assert(all[n as int + 1] == self.wifi_pass);
            assert(all[n as int + 2] == self.wifi_autostart);
            lemma_span_in_layout(all, n as int);
            lemma_span_in_layout(all, n as int + 1);
            lemma_span_in_layout(all, n as int + 2);
        }
        let mut auto_buf = ByteBuf::new(32);
        let res = self.wifi_autostart.read(self.key.as_slice(), &self.medium, &mut auto_buf);
        if res.is_err() {
            return None;
        }
        let yes = yes_value_bytes();
        if !bytes_eq(auto_buf.as_slice(), yes.as_slice()) {
            return None;
        }
        let mut ssid_buf = ByteBuf::new(32);
        let res = self.wifi_ssid.read(self.key.as_slice(), &self.medium, &mut ssid_buf);
        if res.is_err() {
            return None;
        }
        let mut pass_buf = ByteBuf::new(64);
        let res = self.wifi_pass.read(self.key.as_slice(), &self.medium, &mut pass_buf);
        if res.is_err() {
            return None;
        }
        Some(Credentials { ssid: ssid_buf.into_vec(), pass: pass_buf.into_vec() })
    }
}


// ------------------------------------------------------------------
// Laws of the storage model.
// ------------------------------------------------------------------
/// Decoding the stored blocks of `value`, from block `k` on, with the first
/// `16 * k` bytes of `value` already decoded, recovers all of `value`.
proof fn lemma_decode_padded_from(value: Seq<u8>, n: nat, cap: nat, k: nat)
    requires
        seq_all_ascii(value),
        forall|i: int| 0 <= i < value.len() ==> value[i] != 0,
        value.len() <= 16 * n,
        value.len() <= cap,
        k <= n,
    ensures
        decode_blocks(
            Seq::new((n - k) as nat, |i: int| padded(value, k + i)),
            if 16 * k <= value.len() {
                value.take(16 * k as int)
            } else {
                value
            },
            cap,
        ) == Some(value),
    decreases n - k,
{
    let blocks = Seq::new((n - k) as nat, |i: int| padded(value, k + i));
    let acc: Seq<u8> = if 16 * k <= value.len() {
        value.take(16 * k as int)
    } else {
        value
    };
    if k == n {
        assert(acc =~= value);
    } else {
        let b = blocks[0];
        assert(b == padded(value, k as int));
        assert(b.len() == 16);
        assert(seq_all_ascii(b));
        lemma_first_nul(b);
        let z = first_nul(b);
        if 16 * k + 16 <= value.len() {
            // A full block of value bytes, none of them the terminator.
            assert(z == 16) by {
                if z < 16 {
                    assert(b[z] == value[16 * k + z]);
                }
            }
            assert(acc.len() + b.len() <= cap);
            lemma_decode_padded_from(value, n, cap, k + 1);
            assert(acc + b =~= value.take(16 * (k + 1 as int)));
            assert(blocks.drop_first() =~= Seq::new(
                (n - k - 1) as nat,
                |i: int| padded(value, k + 1 + i),
            ));
        } else if 16 * k <= value.len() {
            // The value ends in this block: its bytes, then zero padding.
            let rest = value.len() - 16 * k;
            assert(z == rest) by {
                if z < rest {
                    assert(b[z] == value[16 * k + z]);
                }
                if z > rest {
                    assert(b[rest] == 0);
                }
            }
            assert(acc.len() + z == value.len() <= cap);
            assert(acc + b.take(z) =~= value);
        } else {
            // The value ended in an earlier block: all padding, ending at once.
            assert(b[0] == 0);
            assert(z == 0);
            assert(acc + b.take(0) =~= value);
        }
    }
}

/// Round trip: decoding the zero-padded blocks that a store writes, with
/// enough output capacity, yields exactly the stored value. Holds for ASCII
/// values without zero bytes — a zero byte is the terminator, so everything
/// after the first one is not read back.
pub proof fn lemma_store_read_roundtrip(value: Seq<u8>, n: nat, cap: nat)
    requires
        seq_all_ascii(value),
        forall|i: int| 0 <= i < value.len() ==> value[i] != 0,
        value.len() <= 16 * n,
        value.len() <= cap,
    ensures
        decode_blocks(Seq::new(n, |b: int| padded(value, b)), Seq::empty(), cap) == Some(value),
{
    lemma_decode_padded_from(value, n, cap, 0);
    assert(value.take(0) =~= Seq::<u8>::empty());
    assert(Seq::new(n, |b: int| padded(value, b)) =~= Seq::new(
        (n - 0) as nat,
        |i: int| padded(value, 0 + i),
    ));
}

/// A reset span reads back as the empty value, with any output capacity.
pub proof fn lemma_reset_reads_empty(n: nat, cap: nat)
    ensures
        decode_blocks(Seq::new(n, |b: int| padded(Seq::<u8>::empty(), b)), Seq::empty(), cap)
            == Some(Seq::<u8>::empty()),
{
    lemma_store_read_roundtrip(Seq::<u8>::empty(), n, cap);
}

/// Storing a value over its own stored form changes nothing: the encrypted
/// write is deterministic, so repeating it is a no-op.
pub proof fn lemma_store_idempotent(
    m0: Seq<u8>,
    m1: Seq<u8>,
    m2: Seq<u8>,
    key: Seq<u8>,
    value: Seq<u8>,
    off: int,
    n: nat,
)
    requires
        0 <= off,
        off + 16 * n <= m0.len(),
        is_store_result(m0, m1, key, value, off, n),
        is_store_result(m1, m2, key, value, off, n),
    ensures
        m2 == m1,
{
    assert forall|k: int| 0 <= k < m1.len() implies m2[k] == m1[k] by {
        if off <= k < off + 16 * n {
            let b = (k - off) / 16;
            let j = (k - off) % 16;
            vstd::arithmetic::div_mod::lemma_fundamental_div_mod(k - off, 16);
            vstd::arithmetic::div_mod::lemma_mod_bound(k - off, 16);
            assert(0 <= b < n) by (nonlinear_arith)
                requires
                    0 <= k - off < 16 * n,
                    k - off == 16 * b + j,
                    0 <= j < 16,
            ;
            assert(padded(value, b) == padded(value, b));
            assert(m1.subrange(off + 16 * b, off + 16 * b + 16) == aes_enc(key, padded(value, b)));
            assert(m2.subrange(off + 16 * b, off + 16 * b + 16) == aes_enc(key, padded(value, b)));
            assert(m1[k] == m1.subrange(off + 16 * b, off + 16 * b + 16)[j]);
            assert(m2[k] == m2.subrange(off + 16 * b, off + 16 * b + 16)[j]);
        }
    }
    assert(m2 =~= m1);
}


/// Round trip at the store level: after `value` was stored under `name` and
/// fit its entry's span, a read of that entry with enough output capacity
/// decodes exactly `value`. Holds for ASCII values without zero bytes.
pub proof fn lemma_store_entry_roundtrip(
    m0: ConfigMenu,
    m1: ConfigMenu,
    name: Seq<u8>,
    value: Seq<u8>,
    cap: nat,
)
    requires
        stored_state(m0, m1, name, value),
        m1.key_view() == m0.key_view(),
        find_entry(m0.all_entries(), name) is Some,
        value.len() <= 16 * find_entry(m0.all_entries(), name).unwrap().n_blocks,
        seq_all_ascii(value),
        forall|i: int| 0 <= i < value.len() ==> value[i] != 0,
        value.len() <= cap,
    ensures
        m1.read_result(find_entry(m0.all_entries(), name).unwrap(), cap) == Some(value),
{
    let e = find_entry(m0.all_entries(), name).unwrap();
    assert(entry_plains(m0.key_view(), m1.medium_view(), e.offset as int, e.n_blocks as nat)
        == Seq::new(e.n_blocks as nat, |b: int| padded(value, b)));
    lemma_store_read_roundtrip(value, e.n_blocks as nat, cap);
}

/// After a reset, every entry reads back as the empty value, with any output
/// capacity.
pub proof fn lemma_reset_roundtrip(m0: ConfigMenu, m1: ConfigMenu, j: int, cap: nat)
    requires
        reset_state(m0, m1),
        m1.key_view() == m0.key_view(),
        0 <= j < m0.all_entries().len(),
    ensures
        m1.read_result(m0.all_entries()[j], cap) == Some(Seq::<u8>::empty()),
{
    let e = m0.all_entries()[j];
    assert(span_reset(m1.medium_view(), m0.key_view(), e));
    lemma_reset_reads_empty(e.n_blocks as nat, cap);
}

/// Storing the same value under the same name twice in a row is a no-op: the
/// second store leaves the medium exactly as the first left it.
pub proof fn lemma_store_entry_idempotent(
    m0: ConfigMenu,
    m1: ConfigMenu,
    m2: ConfigMenu,
    name: Seq<u8>,
    value: Seq<u8>,
)
    requires
        m0.wf(),
        stored_state(m0, m1, name, value),
        stored_state(m1, m2, name, value),
        m1.all_entries() == m0.all_entries(),
        m1.key_view() == m0.key_view(),
    ensures
        m2.medium_view() == m1.medium_view(),
{
    match find_entry(m0.all_entries(), name) {
        Option::None => {},
        Option::Some(e) => {
            if value.len() <= 16 * e.n_blocks {
                lemma_find_entry_member(m0.all_entries(), name);
                let i = choose|i: int|
                    0 <= i < m0.all_entries().len() && m0.all_entries()[i] == e
                        && m0.all_entries()[i].name@ == name;
                lemma_span_in_layout(m0.all_entries(), i);
                lemma_store_idempotent(
                    m0.medium_view(),
                    m1.medium_view(),
                    m2.medium_view(),
                    m0.key_view(),
                    value,
                    e.offset as int,
                    e.n_blocks as nat,
                );
            }
        },
    }
}

} // verus!
