//! Byte sequences as bit streams: the bits of bytes in stream order and the
//! bytes that bits pack into.

use crate::bits::{
    bit_of, bits_value, fits_in, lemma_bit_byte, lemma_bits_value_of_value_bits,
    lemma_fits_in_byte, lemma_value_bits_of_bits_value, value_bits,
};
use crate::byte_order::ByteOrder;
use vstd::prelude::*;

verus! {

/// The bits of a byte sequence in stream order: eight per byte, byte by byte.
pub open spec fn stream_bits(order: ByteOrder, bytes: Seq<u8>) -> Seq<bool> {
    Seq::new(
        8 * bytes.len(),
        |i: int|
            match order {
                ByteOrder::BigEndian => bit_of(bytes[i / 8] as u64, (7 - i % 8) as u64),
                ByteOrder::LittleEndian => bit_of(bytes[i / 8] as u64, (i % 8) as u64),
            },
    )
}

/// The bytes that a run of bits packs into, eight bits to a byte. Bits beyond
/// the last full byte are left out.
pub open spec fn bytes_of_bits(order: ByteOrder, bits: Seq<bool>) -> Seq<u8> {
    Seq::new(
        bits.len() / 8,
        |j: int| bits_value(order, bits.subrange(8 * j, 8 * j + 8)) as u8,
    )
}

/// The bits of a byte sequence extended by one byte.
pub proof fn lemma_stream_bits_push(order: ByteOrder, bytes: Seq<u8>, byte: u8)
    ensures
        stream_bits(order, bytes.push(byte)) == stream_bits(order, bytes) + value_bits(
            order,
            byte as u64,
            8,
        ),
{
}

/// The bits of two byte sequences joined are the bits of each, joined.
pub proof fn lemma_stream_bits_concat(order: ByteOrder, front: Seq<u8>, back: Seq<u8>)
    ensures
        stream_bits(order, front + back) == stream_bits(order, front) + stream_bits(order, back),
{
    assert(stream_bits(order, front + back) =~= stream_bits(order, front) + stream_bits(
        order,
        back,
    ));
}

/// Skipping whole bytes skips eight bits for each.
pub proof fn lemma_stream_bits_skip(order: ByteOrder, bytes: Seq<u8>, k: int)
    requires
        0 <= k <= bytes.len(),
    ensures
        stream_bits(order, bytes.skip(k)) == stream_bits(order, bytes).skip(8 * k),
        stream_bits(order, bytes.take(k)) == stream_bits(order, bytes).take(8 * k),
{
}

/// Eight bits of a stream, taken at a byte boundary, are the bits of one byte.
pub proof fn lemma_stream_bits_byte(order: ByteOrder, bytes: Seq<u8>, j: int)
    requires
        0 <= j < bytes.len(),
    ensures
        stream_bits(order, bytes).subrange(8 * j, 8 * j + 8) == value_bits(
            order,
            bytes[j] as u64,
            8,
        ),
        fits_in(bytes[j] as u64, 8),
        bits_value(order, value_bits(order, bytes[j] as u64, 8)) == bytes[j],
{
    let byte = bytes[j];
    assert forall|i: u64| 8 <= i < 64 implies !#[trigger] bit_of(byte as u64, i) by {
        lemma_bit_byte(byte, i);
    }
    lemma_bits_value_of_value_bits(order, bytes[j] as u64, 8);
}

/// Packing the bits of a byte sequence gives the bytes back.
pub proof fn lemma_bytes_of_stream_bits(order: ByteOrder, bytes: Seq<u8>)
    ensures
        bytes_of_bits(order, stream_bits(order, bytes)) == bytes,
{
    let packed = bytes_of_bits(order, stream_bits(order, bytes));
    assert forall|j: int| 0 <= j < bytes.len() implies packed[j] == bytes[j] by {
        lemma_stream_bits_byte(order, bytes, j);
    }
}

/// The bits of the bytes that whole bytes of bits pack into are those bits.
pub proof fn lemma_stream_bits_of_bytes(order: ByteOrder, bits: Seq<bool>)
    requires
        bits.len() % 8 == 0,
    ensures
        stream_bits(order, bytes_of_bits(order, bits)) == bits,
{
    let packed = bytes_of_bits(order, bits);
    let spread = stream_bits(order, packed);
    assert forall|i: int| 0 <= i < bits.len() implies spread[i] == bits[i] by {
        let j = i / 8;
        let group = bits.subrange(8 * j, 8 * j + 8);
        lemma_value_bits_of_bits_value(order, group);
        lemma_fits_in_byte(bits_value(order, group) as u64);
        assert(value_bits(order, packed[j] as u64, 8)[i % 8] == group[i % 8]);
    }
}

/// Bits behind the last whole byte do not count in packing.
pub proof fn lemma_bytes_of_bits_ignores_rest(order: ByteOrder, bits: Seq<bool>)
    ensures
        bytes_of_bits(order, bits) == bytes_of_bits(
            order,
            bits.take(8 * (bits.len() / 8) as int),
        ),
{
    let whole = bits.take(8 * (bits.len() / 8) as int);
    let packed = bytes_of_bits(order, bits);
    let packed_whole = bytes_of_bits(order, whole);
    assert forall|j: int| 0 <= j < packed.len() implies packed[j] == packed_whole[j] by {
        assert(bits.subrange(8 * j, 8 * j + 8) =~= whole.subrange(8 * j, 8 * j + 8));
    }
}

/// Packing bits behind whole bytes of bits packs each part by itself.
pub proof fn lemma_bytes_of_bits_concat(order: ByteOrder, front: Seq<bool>, back: Seq<bool>)
    requires
        front.len() % 8 == 0,
    ensures
        bytes_of_bits(order, front + back) == bytes_of_bits(order, front) + bytes_of_bits(
            order,
            back,
        ),
{
    let joined = bytes_of_bits(order, front + back);
    let parts = bytes_of_bits(order, front) + bytes_of_bits(order, back);
    let whole = front.len() as int / 8;
    assert forall|j: int| 0 <= j < joined.len() implies joined[j] == parts[j] by {
        if j < whole {
            assert((front + back).subrange(8 * j, 8 * j + 8) =~= front.subrange(8 * j, 8 * j + 8));
        } else {
            assert((front + back).subrange(8 * j, 8 * j + 8) =~= back.subrange(
                8 * (j - whole),
                8 * (j - whole) + 8,
            ));
        }
    }
}

} // verus!
