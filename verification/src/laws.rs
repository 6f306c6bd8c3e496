//! Laws of bit reading and writing, proved of the state model that the
//! contracts of the readers and writers are stated over.

use crate::bits::{
    bits_value, fits_in, lemma_bits_value_of_value_bits, lemma_fits_in_byte, lemma_low_bits,
    lemma_value_bits_of_bits_value, low_bits, value_bits, zero_bits,
};
use crate::byte_order::ByteOrder;
use crate::error::BitReadWriteError;
use crate::model::{lemma_pull_is_prefix, valid_width, ReaderState, WriterState};
use crate::stream::{
    bytes_of_bits, lemma_bytes_of_bits_concat, lemma_bytes_of_bits_ignores_rest,
    lemma_bytes_of_stream_bits, lemma_stream_bits_concat, lemma_stream_bits_of_bytes,
    lemma_stream_bits_push, lemma_stream_bits_skip, stream_bits,
};
use vstd::prelude::*;

verus! {

/// The first read from a source returns the first bits of its bytes. Under
/// `BigEndian` these are the bits of each byte from the top down, and the
/// first of them is the most significant bit of the result; under
/// `LittleEndian` they are the bits of each byte from the bottom up, and the
/// first of them is the least significant bit of the result. The result has
/// no bit beyond the width read.
pub proof fn law_read_follows_stream_order(order: ByteOrder, bytes: Seq<u8>, n: usize)
    requires
        valid_width(n),
        n <= 8 * bytes.len(),
    ensures
        ReaderState::fresh(order, bytes).read_outcome(n) is Ok,
        fits_in(ReaderState::fresh(order, bytes).read_outcome(n)->Ok_0, n as nat),
        value_bits(order, ReaderState::fresh(order, bytes).read_outcome(n)->Ok_0, n as nat)
            == stream_bits(order, bytes).take(n as int),
{
    let state = ReaderState::fresh(order, bytes);
    lemma_value_bits_of_bits_value(order, state.unread().take(n as int));
}

/// A peek returns what a read in its place would return, and the read that
/// follows the peek returns the same.
pub proof fn law_peek_then_read(state: ReaderState, n: usize)
    ensures
        state.peek_outcome(n) == state.read_outcome(n),
        state.after_peek(n).read_outcome(n) == state.peek_outcome(n),
{
    if valid_width(n) {
        lemma_pull_is_prefix(state, state.fill_request(n as nat));
    }
}

/// Two reader states that read the same bits in the same order.
pub open spec fn same_stream(left: ReaderState, right: ReaderState) -> bool {
    left.order == right.order && left.unread() == right.unread()
}

/// The state after reading each of `widths` in turn.
pub open spec fn after_reads(state: ReaderState, widths: Seq<usize>) -> ReaderState
    decreases widths.len(),
{
    if widths.len() == 0 {
        state
    } else {
        after_reads(state, widths.drop_last()).after_read(widths.last())
    }
}

/// What reading each of `widths` in turn returns, read by read.
pub open spec fn read_outcomes(state: ReaderState, widths: Seq<usize>) -> Seq<
    Result<u64, BitReadWriteError>,
> {
    Seq::new(
        widths.len(),
        |i: int| after_reads(state, widths.take(i)).read_outcome(widths[i]),
    )
}

/// A read leaves the unread bits without those that it returned, and leaves
/// them as they were where it failed.
pub proof fn law_read_consumes_what_it_returns(state: ReaderState, n: usize)
    ensures
        state.after_read(n).order == state.order,
        state.after_read(n).unread() == if state.read_outcome(n) is Ok {
            state.unread().skip(n as int)
        } else {
            state.unread()
        },
        state.valid() ==> state.after_read(n).valid(),
{
    if valid_width(n) {
        if state.unread().len() < n {
            lemma_pull_is_prefix(state, state.remaining.len());
        } else {
            lemma_pull_is_prefix(state, state.bytes_missing(n as nat));
        }
    }
}

/// Readers that have the same bits ahead of them read the same, whatever
/// part of the bits each has buffered.
pub proof fn law_reads_depend_on_stream_alone(
    left: ReaderState,
    right: ReaderState,
    widths: Seq<usize>,
)
    requires
        same_stream(left, right),
    ensures
        same_stream(after_reads(left, widths), after_reads(right, widths)),
        read_outcomes(left, widths) == read_outcomes(right, widths),
    decreases widths.len(),
{
    if widths.len() > 0 {
        let earlier = widths.drop_last();
        law_reads_depend_on_stream_alone(left, right, earlier);
        law_read_consumes_what_it_returns(after_reads(left, earlier), widths.last());
        law_read_consumes_what_it_returns(after_reads(right, earlier), widths.last());
    }
    assert forall|i: int| 0 <= i < widths.len() implies read_outcomes(left, widths)[i]
        == read_outcomes(right, widths)[i] by {
        law_reads_depend_on_stream_alone(left, right, widths.take(i));
    }
}

/// Peeking changes neither the bits ahead, nor what the reads after it
/// return, nor whether the reader stands at a byte boundary.
pub proof fn law_peek_keeps_reads(state: ReaderState, n: usize, widths: Seq<usize>)
    ensures
        state.after_peek(n).order == state.order,
        state.after_peek(n).unread() == state.unread(),
        read_outcomes(state.after_peek(n), widths) == read_outcomes(state, widths),
        state.after_peek(n).is_byte_aligned() == state.is_byte_aligned(),
        state.valid() ==> state.after_peek(n).valid(),
{
    if valid_width(n) {
        lemma_pull_is_prefix(state, state.fill_request(n as nat));
    }
    law_reads_depend_on_stream_alone(state.after_peek(n), state, widths);
}

/// A flush with part of a byte pending sends exactly one more byte: its bits
/// in stream order are the pending bits, then zero bits.
pub proof fn law_flush_pads_with_zero_bits(state: WriterState)
    requires
        0 < state.pending.len() < 8,
    ensures
        state.after_flush().written == state.written.push(state.padded_byte()),
        state.after_flush().pending == Seq::<bool>::empty(),
        stream_bits(state.order, seq![state.padded_byte()]) == state.pending + zero_bits(
            (8 - state.pending.len()) as nat,
        ),
{
    let order = state.order;
    let padded = state.pending + zero_bits((8 - state.pending.len()) as nat);
    let byte = state.padded_byte();
    assert(state.pending.skip(0) =~= state.pending);
    lemma_value_bits_of_bits_value(order, padded);
    lemma_fits_in_byte(bits_value(order, padded) as u64);
    assert(stream_bits(order, seq![byte]) =~= stream_bits(order, seq![byte]).subrange(0, 8));
}

/// A width of zero or above 64 is refused by every bit-level operation of
/// one register, read, peek or write, with the width named in the error and
/// nothing changed. Reading or peeking in chunks refuses a width of zero in
/// the same way.
pub proof fn law_invalid_width_is_refused(reader: ReaderState, writer: WriterState, value: u64, n: usize)
    requires
        n == 0 || n > 64,
    ensures
        reader.read_outcome(n) == Err::<u64, BitReadWriteError>(
            BitReadWriteError::InvalidBitCount(n),
        ),
        reader.after_read(n) == reader,
        reader.peek_outcome(n) == Err::<u64, BitReadWriteError>(
            BitReadWriteError::InvalidBitCount(n),
        ),
        reader.after_peek(n) == reader,
        writer.write_bits_outcome(n) == Err::<(), BitReadWriteError>(
            BitReadWriteError::InvalidBitCount(n),
        ),
        writer.after_write_bits(value, n) == writer,
        n == 0 ==> {
            &&& reader.bulk_read_outcome(n) == Err::<Seq<u64>, BitReadWriteError>(
                BitReadWriteError::InvalidBitCount(n),
            )
            &&& reader.after_bulk_read(n) == reader
            &&& reader.bulk_peek_outcome(n) == Err::<Seq<u64>, BitReadWriteError>(
                BitReadWriteError::InvalidBitCount(n),
            )
            &&& reader.after_bulk_peek(n) == reader
        },
{
}

/// A read of whole bytes is refused exactly where part of a byte is
/// buffered, and then changes nothing. Otherwise it delivers the bytes ahead,
/// as many as the buffer given takes, the buffered ones first: the source is
/// left alone unless every buffered byte has been delivered.
pub proof fn law_byte_read_needs_alignment(state: ReaderState, len: usize)
    requires
        state.valid(),
    ensures
        state.read_bytes_outcome(len) == Err::<usize, BitReadWriteError>(
            BitReadWriteError::UnalignedAccess,
        ) <==> state.buffered.len() % 8 != 0,
        state.buffered.len() % 8 != 0 ==> state.after_read_bytes(len) == state,
        state.buffered.len() % 8 == 0 ==> {
            &&& state.read_bytes_outcome(len) is Ok
            &&& state.after_read_bytes(len).remaining != state.remaining
                ==> state.after_read_bytes(len).buffered.len() == 0
            &&& stream_bits(
                state.order,
                state.bytes_ahead().take(state.read_bytes_outcome(len)->Ok_0 as int),
            ) == state.unread().take(8 * state.read_bytes_outcome(len)->Ok_0)
            &&& state.after_read_bytes(len).unread() == state.unread().skip(
                8 * state.read_bytes_outcome(len)->Ok_0,
            )
        },
{
    if state.buffered.len() % 8 == 0 {
        let order = state.order;
        let count = state.read_bytes_outcome(len)->Ok_0 as int;
        let after = state.after_read_bytes(len);
        let from_buffer = state.buffered.len() / 8;
        if after.remaining != state.remaining {
            assert(after.remaining.len() != state.remaining.len()) by {
                if after.remaining.len() == state.remaining.len() {
                    assert(after.remaining =~= state.remaining);
                }
            }
        }
        lemma_stream_bits_of_bytes(order, state.buffered);
        lemma_stream_bits_skip(order, state.bytes_ahead(), count);
        let taken_from_source = if count <= from_buffer {
            0
        } else {
            count - from_buffer
        };
        lemma_stream_bits_skip(order, state.remaining, taken_from_source);
    }
}

/// Whole bytes written while no part of a byte is pending reach the sink as
/// they are, behind the whole bytes that were pending, and leave nothing
/// pending.
pub proof fn law_byte_write_when_aligned(state: WriterState, bytes: Seq<u8>)
    requires
        state.pending.len() % 8 == 0,
    ensures
        state.after_write(bytes).written == state.written + bytes_of_bits(
            state.order,
            state.pending,
        ) + bytes,
        state.after_write(bytes).pending == Seq::<bool>::empty(),
{
    let order = state.order;
    lemma_bytes_of_bits_concat(order, state.pending, stream_bits(order, bytes));
    lemma_bytes_of_stream_bits(order, bytes);
}

/// The writer state after writing each of `fields`, a value and a width, in
/// turn.
pub open spec fn after_writes(state: WriterState, fields: Seq<(u64, usize)>) -> WriterState
    decreases fields.len(),
{
    if fields.len() == 0 {
        state
    } else {
        after_writes(state, fields.drop_last()).after_write_bits(
            fields.last().0,
            fields.last().1,
        )
    }
}

/// The widths of `fields`, in order.
pub open spec fn widths_of(fields: Seq<(u64, usize)>) -> Seq<usize> {
    Seq::new(fields.len(), |i: int| fields[i].1)
}

/// Whether every field has a width that one operation handles.
pub open spec fn valid_fields(fields: Seq<(u64, usize)>) -> bool {
    forall|i: int| 0 <= i < fields.len() ==> valid_width(#[trigger] fields[i].1)
}

/// The bits of `fields` in stream order, field after field.
pub open spec fn fields_bits(order: ByteOrder, fields: Seq<(u64, usize)>) -> Seq<bool>
    decreases fields.len(),
{
    if fields.len() == 0 {
        Seq::empty()
    } else {
        fields_bits(order, fields.drop_last()) + value_bits(
            order,
            fields.last().0,
            fields.last().1 as nat,
        )
    }
}

/// Bits cut in two behind a front, and bits joined behind it in either
/// grouping, are the same run.
proof fn lemma_regroup(front: Seq<bool>, pending: Seq<bool>, bits: Seq<bool>, at: int)
    requires
        0 <= at <= pending.len() + bits.len(),
    ensures
        (front + (pending + bits).take(at)) + (pending + bits).skip(at) == (front + pending)
            + bits,
{
    let all = pending + bits;
    assert((front + all.take(at)) + all.skip(at) =~= (front + pending) + bits);
}

/// Absorbing bits adds them to the bits taken in and leaves less than a byte
/// pending.
pub proof fn lemma_absorb_emitted(state: WriterState, bits: Seq<bool>)
    ensures
        state.absorb(bits).order == state.order,
        state.absorb(bits).emitted() == state.emitted() + bits,
        state.absorb(bits).pending.len() < 8,
{
    let order = state.order;
    let all = state.pending + bits;
    let whole = 8 * (all.len() / 8) as int;
    let packed = bytes_of_bits(order, all);
    let sent = stream_bits(order, state.written);
    lemma_bytes_of_bits_ignores_rest(order, all);
    lemma_stream_bits_of_bytes(order, all.take(whole));
    lemma_stream_bits_concat(order, state.written, packed);
    lemma_regroup(sent, state.pending, bits, whole);
    assert(stream_bits(order, packed) == all.take(whole));
    assert(state.absorb(bits).emitted() == (sent + all.take(whole)) + all.skip(whole));
}

/// Writing fields adds their bits, in order, to the bits taken in.
pub proof fn lemma_after_writes_emitted(state: WriterState, fields: Seq<(u64, usize)>)
    requires
        valid_fields(fields),
    ensures
        after_writes(state, fields).order == state.order,
        after_writes(state, fields).emitted() == state.emitted() + fields_bits(
            state.order,
            fields,
        ),
    decreases fields.len(),
{
    if fields.len() == 0 {
        assert(state.emitted() + Seq::<bool>::empty() =~= state.emitted());
    } else {
        let earlier = fields.drop_last();
        assert(valid_fields(earlier)) by {
            assert forall|i: int| 0 <= i < earlier.len() implies valid_width(
                #[trigger] earlier[i].1,
            ) by {
                assert(earlier[i] == fields[i]);
            }
        }
        lemma_after_writes_emitted(state, earlier);
        let before = after_writes(state, earlier);
        let last_bits = value_bits(state.order, fields.last().0, fields.last().1 as nat);
        lemma_absorb_emitted(before, last_bits);
        assert(state.emitted() + fields_bits(state.order, earlier) + last_bits
            =~= state.emitted() + fields_bits(state.order, fields));
    }
}

/// A flush brings all the bits taken in to the sink, with zero bits up to
/// the next byte boundary behind them.
pub proof fn lemma_flush_emitted(state: WriterState)
    ensures
        state.after_flush().order == state.order,
        state.after_flush().pending == Seq::<bool>::empty(),
        stream_bits(state.order, state.after_flush().written).len() < state.emitted().len() + 8,
        stream_bits(state.order, state.after_flush().written) == state.emitted() + zero_bits(
            (stream_bits(state.order, state.after_flush().written).len() - state.emitted().len())
                as nat,
        ),
{
    let order = state.order;
    let drained = state.absorb(Seq::empty());
    lemma_absorb_emitted(state, Seq::empty());
    let flushed = state.after_flush();
    if drained.pending.len() == 0 {
        assert(stream_bits(order, flushed.written) =~= state.emitted() + zero_bits(0));
    } else {
        let padded = drained.pending + zero_bits((8 - drained.pending.len()) as nat);
        let byte = drained.padded_byte();
        lemma_value_bits_of_bits_value(order, padded);
        lemma_fits_in_byte(bits_value(order, padded) as u64);
        lemma_stream_bits_push(order, drained.written, byte);
    }
}

/// The bits of the first fields are the front of the bits of all of them.
pub proof fn lemma_fields_bits_prefix(order: ByteOrder, fields: Seq<(u64, usize)>, count: int)
    requires
        0 <= count <= fields.len(),
    ensures
        fields_bits(order, fields.take(count)).len() <= fields_bits(order, fields).len(),
        fields_bits(order, fields.take(count)) == fields_bits(order, fields).take(
            fields_bits(order, fields.take(count)).len() as int,
        ),
        count < fields.len() ==> fields_bits(order, fields.take(count + 1)) == fields_bits(
            order,
            fields.take(count),
        ) + value_bits(order, fields[count].0, fields[count].1 as nat),
    decreases fields.len() - count,
{
    if count == fields.len() {
        assert(fields.take(count) =~= fields);
    } else {
        lemma_fields_bits_prefix(order, fields, count + 1);
        let longer = fields.take(count + 1);
        assert(longer.drop_last() =~= fields.take(count));
        let short_bits = fields_bits(order, fields.take(count));
        let long_bits = fields_bits(order, longer);
        assert(short_bits =~= long_bits.take(short_bits.len() as int));
    }
}

/// Reading the widths of the first fields from a reader that has the bits of
/// all of them ahead consumes the bits of those fields and no more.
pub proof fn lemma_reads_of_fields(state: ReaderState, fields: Seq<(u64, usize)>, count: int)
    requires
        valid_fields(fields),
        0 <= count <= fields.len(),
        fields_bits(state.order, fields).len() <= state.unread().len(),
        state.unread().take(fields_bits(state.order, fields).len() as int) == fields_bits(
            state.order,
            fields,
        ),
    ensures
        after_reads(state, widths_of(fields).take(count)).order == state.order,
        after_reads(state, widths_of(fields).take(count)).unread() == state.unread().skip(
            fields_bits(state.order, fields.take(count)).len() as int,
        ),
    decreases count,
{
    let order = state.order;
    let widths = widths_of(fields);
    if count == 0 {
        assert(state.unread().skip(0) =~= state.unread());
    } else {
        lemma_reads_of_fields(state, fields, count - 1);
        lemma_fields_bits_prefix(order, fields, count - 1);
        lemma_fields_bits_prefix(order, fields, count);
        assert(widths.take(count).drop_last() =~= widths.take(count - 1));
        let before = after_reads(state, widths.take(count - 1));
        law_read_consumes_what_it_returns(before, fields[count - 1].1);
        let start = fields_bits(order, fields.take(count - 1)).len() as int;
        assert(state.unread().skip(start).skip(fields[count - 1].1 as int)
            =~= state.unread().skip(start + fields[count - 1].1));
    }
}

/// A reader that has the bits of `fields` ahead reads, after the widths of
/// the fields before it, each field's value cut to its width.
pub proof fn lemma_read_of_field(state: ReaderState, fields: Seq<(u64, usize)>, index: int)
    requires
        valid_fields(fields),
        0 <= index < fields.len(),
        fields_bits(state.order, fields).len() <= state.unread().len(),
        state.unread().take(fields_bits(state.order, fields).len() as int) == fields_bits(
            state.order,
            fields,
        ),
    ensures
        after_reads(state, widths_of(fields).take(index)).read_outcome(fields[index].1) == Ok::<
            u64,
            BitReadWriteError,
        >(low_bits(fields[index].0, fields[index].1 as nat)),
{
    let order = state.order;
    let all = fields_bits(order, fields);
    let value = fields[index].0;
    let width = fields[index].1;
    lemma_reads_of_fields(state, fields, index);
    lemma_fields_bits_prefix(order, fields, index);
    lemma_fields_bits_prefix(order, fields, index + 1);
    let before = after_reads(state, widths_of(fields).take(index));
    let start = fields_bits(order, fields.take(index)).len() as int;
    let field_bits = value_bits(order, value, width as nat);
    assert(all.subrange(start, start + width) =~= field_bits) by {
        assert((fields_bits(order, fields.take(index)) + field_bits).skip(start) =~= field_bits);
    }
    assert(before.unread().take(width as int) =~= all.subrange(start, start + width));
    lemma_low_bits(order, value, width as nat);
    lemma_bits_value_of_value_bits(order, low_bits(value, width as nat), width as nat);
}

/// The bytes that a writer sends for `fields`, written in order into an
/// empty sink and flushed, begin with the bits of the fields.
pub proof fn lemma_written_fields(order: ByteOrder, fields: Seq<(u64, usize)>)
    requires
        valid_fields(fields),
    ensures
        ({
            let bytes = after_writes(
                WriterState::fresh(order, Seq::empty()),
                fields,
            ).after_flush().written;
            &&& fields_bits(order, fields).len() <= stream_bits(order, bytes).len()
            &&& stream_bits(order, bytes).take(fields_bits(order, fields).len() as int)
                == fields_bits(order, fields)
        }),
{
    let writer = WriterState::fresh(order, Seq::empty());
    let written = after_writes(writer, fields);
    let bytes = written.after_flush().written;
    let all = fields_bits(order, fields);
    lemma_after_writes_emitted(writer, fields);
    lemma_flush_emitted(written);
    assert(stream_bits(order, bytes).take(all.len() as int) =~= all);
}

/// Round trip: the bytes that a writer sends for a sequence of values and
/// widths, written in order and flushed, read back with the same widths in
/// the same bit order as the values, each cut to the width it was written
/// with.
pub proof fn law_round_trip(order: ByteOrder, fields: Seq<(u64, usize)>)
    requires
        valid_fields(fields),
    ensures
        read_outcomes(
            ReaderState::fresh(
                order,
                after_writes(WriterState::fresh(order, Seq::empty()), fields).after_flush().written,
            ),
            widths_of(fields),
        ) == Seq::new(
            fields.len(),
            |i: int| Ok::<u64, BitReadWriteError>(low_bits(fields[i].0, fields[i].1 as nat)),
        ),
{
    let bytes = after_writes(WriterState::fresh(order, Seq::empty()), fields).after_flush().written;
    let reader = ReaderState::fresh(order, bytes);
    lemma_written_fields(order, fields);
    let outcomes = read_outcomes(reader, widths_of(fields));
    let expected = Seq::new(
        fields.len(),
        |i: int| Ok::<u64, BitReadWriteError>(low_bits(fields[i].0, fields[i].1 as nat)),
    );
    assert forall|i: int| 0 <= i < fields.len() implies outcomes[i] == expected[i] by {
        lemma_read_of_field(reader, fields, i);
    }
}

} // verus!
