//! Constants of the flattened device tree format and big-endian helpers.

use vstd::prelude::*;

verus! {

/// Alignment, in bytes, that the blob's total size is padded to.
pub const ALIGN: usize = 8;

/// Size of the header: ten big-endian 32-bit words.
pub const HEADER_LEN: u32 = 40;

/// Header size rounded up to `ALIGN`.
pub const HEADER_PADDING_LEN: u32 = 40;

/// The magic word a blob starts with.
pub const DEVICE_TREE_MAGIC: u32 = 0xd00d_feed;

/// The format version written into the header.
pub const SUPPORTED_VERSION: u32 = 17;

/// Big-endian value of the four bytes `bytes[at..at + 4]`.
pub open spec fn be_u32_value(bytes: Seq<u8>, at: int) -> nat {
    (bytes[at] as nat) * 0x100_0000 + (bytes[at + 1] as nat) * 0x1_0000 + (bytes[at + 2] as nat)
        * 0x100 + (bytes[at + 3] as nat)
}

/// The four bytes that encode `v` in big-endian order.
pub open spec fn be_u32_bytes(v: u32) -> Seq<u8> {
    seq![
        (v / 0x100_0000) as u8,
        ((v / 0x1_0000) % 0x100) as u8,
        ((v / 0x100) % 0x100) as u8,
        (v % 0x100) as u8,
    ]
}

/// Reading back the encoding of `v` gives `v`.
pub proof fn lemma_be_u32_roundtrip(v: u32)
    ensures
        be_u32_value(be_u32_bytes(v), 0) == v,
{
    let b = be_u32_bytes(v);
    assert(b[0] as nat == v / 0x100_0000);
    assert(b[1] as nat == (v / 0x1_0000) % 0x100);
    assert(b[2] as nat == (v / 0x100) % 0x100);
    assert(b[3] as nat == v % 0x100);
}

/// Reads the big-endian 32-bit word at `bytes[at..at + 4]`.
pub fn read_be_u32(bytes: &[u8], at: usize) -> (v: u32)
    requires
        at + 4 <= bytes@.len(),
    ensures
        v == be_u32_value(bytes@, at as int),
{
    let b0 = bytes[at] as u32;
    let b1 = bytes[at + 1] as u32;
    let b2 = bytes[at + 2] as u32;
    let b3 = bytes[at + 3] as u32;
    b0 * 0x100_0000 + b1 * 0x1_0000 + b2 * 0x100 + b3
}

/// Writes `v` in big-endian order into `buf[at..at + 4]`.
pub fn write_be_u32(buf: &mut [u8], at: usize, v: u32)
    requires
        at + 4 <= old(buf)@.len(),
    ensures
        final(buf)@ == old(buf)@.take(at as int) + be_u32_bytes(v) + old(buf)@.skip(at + 4),
{
    buf[at] = (v / 0x100_0000) as u8;
    buf[at + 1] = ((v / 0x1_0000) % 0x100) as u8;
    buf[at + 2] = ((v / 0x100) % 0x100) as u8;
    buf[at + 3] = (v % 0x100) as u8;
    assert(buf@ =~= old(buf)@.take(at as int) + be_u32_bytes(v) + old(buf)@.skip(at + 4));
}

} // verus!
