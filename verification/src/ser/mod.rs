//! Serialisation side: the blob header and its size arithmetic.

pub mod string_block;

use crate::common::{
    be_u32_bytes, be_u32_value, lemma_be_u32_roundtrip, write_be_u32, ALIGN, DEVICE_TREE_MAGIC,
    HEADER_LEN, HEADER_PADDING_LEN, SUPPORTED_VERSION,
};
use vstd::prelude::*;

verus! {

/// Size of the (empty) memory reservation map that follows the header.
pub const RSVMAP_LEN: usize = 16;

/// Errors of serialisation.
#[derive(Debug)]
pub enum Error {
    Unknown,
}

/// Bytes that pad a blob of `length` bytes: `ALIGN` minus the remainder,
/// so a length that is already aligned still gets a full `ALIGN` bytes.
pub open spec fn structure_padding(length: int) -> int {
    ALIGN - length % (ALIGN as int)
}

/// Offset of the structure block: header plus reservation map.
pub open spec fn structure_offset() -> int {
    HEADER_PADDING_LEN + RSVMAP_LEN
}

/// Size of a blob whose structure block and string block have the given
/// lengths, before padding.
pub open spec fn unpadded_size(structure_length: int, string_block_length: int) -> int {
    structure_offset() + structure_length + string_block_length
}

/// Size of a blob whose structure block and string block have the given
/// lengths, padding included.
pub open spec fn dtb_size(structure_length: int, string_block_length: int) -> int {
    let n = unpadded_size(structure_length, string_block_length);
    n + structure_padding(n)
}

/// The header, as the big-endian words it is made of.
pub open spec fn header_words(total_size: u32, structure_length: u32, string_block_length: u32) -> Seq<u32> {
    seq![
        DEVICE_TREE_MAGIC,
        total_size,
        structure_offset() as u32,
        (structure_offset() + structure_length) as u32,
        HEADER_PADDING_LEN,
        SUPPORTED_VERSION,
        SUPPORTED_VERSION,
        0u32,
        string_block_length,
        structure_length,
    ]
}

/// Big-endian encoding of a sequence of words.
pub open spec fn be_words(words: Seq<u32>) -> Seq<u8>
    decreases words.len(),
{
    if words.len() == 0 {
        Seq::empty()
    } else {
        be_words(words.drop_last()) + be_u32_bytes(words.last())
    }
}

/// The header bytes for the given total size and block lengths.
pub open spec fn header_bytes(total_size: u32, structure_length: u32, string_block_length: u32) -> Seq<u8> {
    be_words(header_words(total_size, structure_length, string_block_length))
}

/// Length and contents of a big-endian word sequence, word by word.
pub proof fn lemma_be_words(words: Seq<u32>)
    ensures
        be_words(words).len() == 4 * words.len(),
        forall|i: int, k: int|
            0 <= i < words.len() && 0 <= k < 4 ==> #[trigger] be_words(words)[4 * i + k]
                == be_u32_bytes(words[i])[k],
    decreases words.len(),
{
    if words.len() > 0 {
        let init = words.drop_last();
        lemma_be_words(init);
        assert forall|i: int, k: int|
            0 <= i < words.len() && 0 <= k < 4 implies #[trigger] be_words(words)[4 * i + k]
                == be_u32_bytes(words[i])[k] by {
            if i < init.len() {
                assert(words[i] == init[i]);
            }
        }
    }
}

/// Reading word `i` back from the big-endian encoding gives `words[i]`.
pub proof fn lemma_be_words_read(words: Seq<u32>, i: int)
    requires
        0 <= i < words.len(),
    ensures
        be_u32_value(be_words(words), 4 * i) == words[i],
{
    lemma_be_words(words);
    lemma_be_u32_roundtrip(words[i]);
    let b = be_words(words);
    let e = be_u32_bytes(words[i]);
    let (k0, k1, k2, k3): (int, int, int, int) = (0, 1, 2, 3);
    assert(b[4 * i + k0] == e[k0] && b[4 * i + k1] == e[k1] && b[4 * i + k2] == e[k2] && b[4 * i
        + k3] == e[k3]);
}

/// Number of padding bytes after a blob of `length` bytes.
pub fn get_structure_padding(length: usize) -> (padding: usize)
    ensures
        padding == structure_padding(length as int),
        1 <= padding <= ALIGN,
        (length + padding) % (ALIGN as int) == 0,
{
    let rem = length & (ALIGN - 1);
    assert(length & 7 == length % 8) by (bit_vector);
    ALIGN - rem
}

/// Size of the blob whose structure block and string block have the given
/// lengths: header, reservation map, both blocks and padding.
pub fn dtb_total_size(structure_length: usize, string_block_length: usize) -> (total: usize)
    requires
        dtb_size(structure_length as int, string_block_length as int) <= usize::MAX,
    ensures
        total == dtb_size(structure_length as int, string_block_length as int),
        total % ALIGN == 0,
{
    let total_size = HEADER_PADDING_LEN as usize + RSVMAP_LEN + structure_length + string_block_length;
    let padding = get_structure_padding(total_size);
    total_size + padding
}

/// Writes `words` in big-endian order at the start of `buf`.
fn write_be_words(buf: &mut [u8], words: &Vec<u32>)
    requires
        4 * words@.len() <= old(buf)@.len(),
    ensures
        final(buf)@ == be_words(words@) + old(buf)@.skip(4 * words@.len() as int),
{
    let mut i: usize = 0;
    while i < words.len()
        invariant
            i <= words@.len(),
            4 * words@.len() <= old(buf)@.len(),
            old(buf)@.len() == buf@.len() == buf.len(),
            buf@ == be_words(words@.take(i as int)) + old(buf)@.skip(4 * i),
        decreases words@.len() - i,
    {
        proof {
            lemma_be_words(words@.take(i as int));
        }
        write_be_u32(buf, 4 * i, words[i]);
        proof {
            let t = words@.take(i + 1);
            assert(t.drop_last() =~= words@.take(i as int));
            assert(buf@ =~= be_words(t) + old(buf)@.skip(4 * (i + 1)));
        }
        i = i + 1;
    }
    assert(words@.take(words@.len() as int) =~= words@);
}

/// Writes the header of a blob whose structure block and string block have
/// the given lengths into `writer[..HEADER_LEN]`, and returns the blob's total
/// size. The rest of `writer` is left as it was.
pub fn make_header(writer: &mut [u8], structure_length: u32, string_block_length: u32) -> (total: usize)
    requires
        old(writer)@.len() >= HEADER_LEN,
        dtb_size(structure_length as int, string_block_length as int) <= u32::MAX,
    ensures
        total == dtb_size(structure_length as int, string_block_length as int),
        total % ALIGN == 0,
        final(writer)@ == header_bytes(total as u32, structure_length, string_block_length)
            + old(writer)@.skip(HEADER_LEN as int),
{
    let total_size = HEADER_PADDING_LEN + RSVMAP_LEN as u32 + structure_length + string_block_length;
    let padding = get_structure_padding(total_size as usize);
    let total_size = total_size + padding as u32;
    let words = vec![
        DEVICE_TREE_MAGIC,
        total_size,
        HEADER_PADDING_LEN + RSVMAP_LEN as u32,
        HEADER_PADDING_LEN + RSVMAP_LEN as u32 + structure_length,
        HEADER_PADDING_LEN,
        SUPPORTED_VERSION,
        SUPPORTED_VERSION,
        0,
        string_block_length,
        structure_length,
    ];
    assert(words@ =~= header_words(total_size, structure_length, string_block_length));
    write_be_words(writer, &words);
    total_size as usize
}

/// The header that `make_header` writes reads back as the blob's fields: the
/// magic word, a total size equal to `dtb_total_size` of the same lengths
/// and a multiple of `ALIGN`, the structure block right after the header
/// and reservation map, the string block right after the structure block,
/// the version, and the two block sizes; the blob ends less than `ALIGN`
/// bytes past the string block.
pub proof fn law_header_fields(structure_length: u32, string_block_length: u32)
    requires
        dtb_size(structure_length as int, string_block_length as int) <= u32::MAX,
    ensures
        ({
            let total = dtb_size(structure_length as int, string_block_length as int);
            let h = header_bytes(total as u32, structure_length, string_block_length);
            &&& h.len() == HEADER_LEN
            &&& be_u32_value(h, 0) == DEVICE_TREE_MAGIC
            &&& be_u32_value(h, 4) == total
            &&& total % (ALIGN as int) == 0
            &&& be_u32_value(h, 8) == structure_offset()
            &&& be_u32_value(h, 12) == be_u32_value(h, 8) + structure_length
            &&& be_u32_value(h, 16) == HEADER_PADDING_LEN
            &&& be_u32_value(h, 20) == SUPPORTED_VERSION
            &&& be_u32_value(h, 24) == SUPPORTED_VERSION
            &&& be_u32_value(h, 28) == 0
            &&& be_u32_value(h, 32) == string_block_length
            &&& be_u32_value(h, 36) == structure_length
            &&& be_u32_value(h, 12) + string_block_length < total <= be_u32_value(h, 12)
                + string_block_length + ALIGN
        }),
{
    let total = dtb_size(structure_length as int, string_block_length as int);
    let words = header_words(total as u32, structure_length, string_block_length);
    let h = be_words(words);
    assert(h.len() == HEADER_LEN) by {
        lemma_be_words(words);
    }
    assert(total % 8 == 0);
    let (i0, i1, i2, i3, i4, i5, i6, i7, i8, i9): (int, int, int, int, int, int, int, int, int, int) =
        (0, 1, 2, 3, 4, 5, 6, 7, 8, 9);
    lemma_be_words_read(words, i0);
    lemma_be_words_read(words, i1);
    lemma_be_words_read(words, i2);
    lemma_be_words_read(words, i3);
    lemma_be_words_read(words, i4);
    lemma_be_words_read(words, i5);
    lemma_be_words_read(words, i6);
    lemma_be_words_read(words, i7);
    lemma_be_words_read(words, i8);
    lemma_be_words_read(words, i9);
    assert(words[i1] == total);
    assert(words[i3] == structure_offset() + structure_length);
}

} // verus!
