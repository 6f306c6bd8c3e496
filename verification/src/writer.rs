//! The bit writer: spans of bits and whole bytes, packed into a byte sink.

use crate::accumulator::BitAccumulator;
use crate::bits::{
    fits_in, keep_low_bits, lemma_fits_in_byte, lemma_low_bits, lemma_split_value,
    lemma_value_bits_of_bits_value, padded_take, value_bits,
};
use crate::byte_order::ByteOrder;
use crate::error::BitReadWriteError;
use crate::model::WriterState;
use crate::sink::ByteSink;
use crate::stream::{
    bytes_of_bits, lemma_bytes_of_stream_bits, lemma_stream_bits_byte, lemma_stream_bits_push,
    stream_bits,
};
use crate::traits::BitWrite;
use vstd::prelude::*;

verus! {

/// Writes spans of 1 to 64 bits to a byte sink, most significant bit first or
/// least significant bit first, and whole bytes in between.
///
/// Bits that do not fill a byte wait in the writer. They reach the sink with
/// the bits that complete the byte, or padded with zero bits on `flush` or
/// `into_inner`. A writer that is dropped without either takes its pending
/// bits with it.
pub struct BitWriter<W: ByteSink> {
    inner: W,
    accumulator: BitAccumulator,
}

impl<W: ByteSink> View for BitWriter<W> {
    type V = WriterState;

    closed spec fn view(&self) -> WriterState {
        WriterState {
            order: self.accumulator.order(),
            written: self.inner.written(),
            pending: self.accumulator.bits(),
        }
    }
}

impl<W: ByteSink> BitWriter<W> {
    /// How many of the bytes sent the sink has passed on.
    pub closed spec fn flushed(&self) -> nat {
        self.inner.flushed()
    }
}

/// Whether `later` is `earlier` after more bits have been written and bytes
/// have gone to the sink: the sink has only grown, and the bits taken in are
/// those before, then `bits`.
spec fn advanced_by(earlier: WriterState, later: WriterState, bits: Seq<bool>) -> bool {
    &&& later.order == earlier.order
    &&& earlier.written.len() <= later.written.len()
    &&& later.written.take(earlier.written.len() as int) == earlier.written
    &&& later.emitted() == earlier.emitted() + bits
}

/// A state that has advanced by `bits` and holds less than a byte is the one
/// that absorbing `bits` leads to.
proof fn lemma_advanced_is_absorbed(earlier: WriterState, later: WriterState, bits: Seq<bool>)
    requires
        advanced_by(earlier, later, bits),
        later.pending.len() < 8,
    ensures
        later == earlier.absorb(bits),
{
    let order = earlier.order;
    let sent = later.written.skip(earlier.written.len() as int);
    let all = earlier.pending + bits;
    assert(later.written =~= earlier.written + sent);
    let base = stream_bits(order, earlier.written);
    assert(stream_bits(order, sent) + later.pending =~= all) by {
        assert((base + earlier.pending + bits).skip(base.len() as int) =~= all);
    }
    lemma_bytes_of_stream_bits(order, sent);
    let packed = bytes_of_bits(order, all);
    assert forall|j: int| 0 <= j < sent.len() implies packed[j] == sent[j] by {
        assert(all.subrange(8 * j, 8 * j + 8) =~= stream_bits(order, sent).subrange(
            8 * j,
            8 * j + 8,
        ));
    }
    assert(packed =~= sent);
    assert(later.pending =~= all.skip(8 * (all.len() / 8) as int));
}

/// Advancing twice is advancing by both runs of bits, one after the other.
proof fn lemma_advanced_chain(
    first: WriterState,
    second: WriterState,
    third: WriterState,
    early: Seq<bool>,
    late: Seq<bool>,
)
    requires
        advanced_by(first, second, early),
        advanced_by(second, third, late),
    ensures
        advanced_by(first, third, early + late),
{
    assert(third.written.take(first.written.len() as int) =~= second.written.take(
        first.written.len() as int,
    )) by {
        assert(third.written.take(second.written.len() as int) == second.written);
    }
    assert(third.emitted() =~= first.emitted() + (early + late));
}

/// New pending bits advance a state by those bits.
proof fn lemma_advanced_pending(earlier: WriterState, later: WriterState, bits: Seq<bool>)
    requires
        later.order == earlier.order,
        later.written == earlier.written,
        later.pending == earlier.pending + bits,
    ensures
        advanced_by(earlier, later, bits),
{
    assert(later.written.take(earlier.written.len() as int) =~= earlier.written);
    assert(later.emitted() =~= earlier.emitted() + bits);
}

impl<W: ByteSink> BitWriter<W> {
    /// A writer into `inner` that puts the most significant bit first.
    pub fn new(inner: W) -> (writer: Self)
        ensures
            writer@ == WriterState::fresh(ByteOrder::BigEndian, inner.written()),
            writer.flushed() == inner.flushed(),
    {
        Self::with_byte_order(ByteOrder::BigEndian, inner)
    }

    /// A writer into `inner` that puts bits in the given order.
    pub fn with_byte_order(byte_order: ByteOrder, inner: W) -> (writer: Self)
        ensures
            writer@ == WriterState::fresh(byte_order, inner.written()),
            writer.flushed() == inner.flushed(),
    {
        BitWriter { inner, accumulator: BitAccumulator::new(byte_order) }
    }

    /// The sink that the writer sends its bytes to.
    pub fn get_ref(&self) -> (inner: &W)
        ensures
            inner.written() == self@.written,
            inner.flushed() == self.flushed(),
    {
        &self.inner
    }

    /// The sink that the writer sends its bytes to, open to change. What the
    /// sink is left with is what the writer goes on from; the bits pending
    /// stay.
    pub fn get_mut(&mut self) -> (inner: &mut W)
        ensures
            inner.written() == old(self)@.written,
            inner.flushed() == old(self).flushed(),
            final(self)@ == (WriterState {
                order: old(self)@.order,
                written: final(inner).written(),
                pending: old(self)@.pending,
            }),
            final(self).flushed() == final(inner).flushed(),
    {
        &mut self.inner
    }

    /// Sends every whole byte among the pending bits to the sink, oldest
    /// first.
    fn write_aligned_bytes_to_inner(&mut self)
        ensures
            final(self)@ == old(self)@.absorb(Seq::empty()),
            advanced_by(old(self)@, final(self)@, Seq::empty()),
            final(self)@.pending.len() == old(self)@.pending.len() % 8,
    {
        let ghost start = self@;
        proof {
            self.accumulator.lemma_capacity();
            assert(start.written.take(start.written.len() as int) =~= start.written);
        }
        while self.accumulator.len() >= 8
            invariant
                advanced_by(start, self@, Seq::empty()),
                self@.pending.len() % 8 == start.pending.len() % 8,
                self@.pending.len() <= 64,
            decreases self@.pending.len(),
        {
            let ghost before = self@;
            let value = self.accumulator.take(8);
            proof {
                lemma_value_bits_of_bits_value(before.order, before.pending.take(8));
                lemma_fits_in_byte(value);
            }
            let byte = value as u8;
            let bytes = [byte];
            self.inner.write_all(&bytes);
            proof {
                assert(bytes@ =~= seq![byte]);
                assert(before.written + seq![byte] =~= before.written.push(byte));
                lemma_stream_bits_push(before.order, before.written, byte);
                assert(self@.emitted() =~= before.emitted());
                assert(self@.written.take(start.written.len() as int) =~= before.written.take(
                    start.written.len() as int,
                ));
            }
        }
        proof {
            lemma_advanced_is_absorbed(start, self@, Seq::empty());
        }
    }
}

impl<W: ByteSink> BitWriter<W> {
    /// Sends what is pending of a byte to the sink, zero bits filling the
    /// byte up behind the pending bits, and leaves nothing pending.
    fn write_partial_byte_to_inner(&mut self)
        requires
            old(self)@.pending.len() < 8,
        ensures
            final(self)@ == old(self)@.after_flush(),
    {
        let ghost start = self@;
        proof {
            assert(start.pending.skip(0) =~= start.pending);
        }
        let held = self.accumulator.len();
        if held > 0 {
            let value = self.accumulator.peek(8);
            proof {
                lemma_value_bits_of_bits_value(start.order, padded_take(start.pending, 8));
            }
            let bytes = [value as u8];
            self.inner.write_all(&bytes);
            let _ = self.accumulator.take(held);
            proof {
                assert(bytes@ =~= seq![value as u8]);
                assert(start.written + seq![value as u8] =~= start.written.push(value as u8));
                assert(self@.pending =~= Seq::<bool>::empty());
            }
        }
    }

    /// Sends every whole byte that is pending to the sink, then what is left
    /// of a byte, padded with zero bits, and flushes the sink. This never
    /// fails.
    pub fn flush(&mut self) -> (done: Result<(), BitReadWriteError>)
        ensures
            done == Ok::<(), BitReadWriteError>(()),
            final(self)@ == old(self)@.after_flush(),
            final(self)@.valid(),
            final(self).flushed() == final(self)@.written.len(),
    {
        self.write_aligned_bytes_to_inner();
        proof {
            let drained = old(self)@.absorb(Seq::empty());
            assert(drained.pending.skip(0) =~= drained.pending);
        }
        self.write_partial_byte_to_inner();
        self.inner.flush();
        Ok(())
    }

    /// Flushes the writer and hands back its sink, so that no pending bit is
    /// lost with the writer.
    pub fn into_inner(self) -> (inner: W)
        ensures
            inner.written() == self@.after_flush().written,
            inner.flushed() == inner.written().len(),
    {
        let mut writer = self;
        let _ = writer.flush();
        writer.inner
    }

    /// Pushes into the accumulator as many of the `remaining` bits of `value`
    /// as it has room for, oldest first, and returns what is left of the
    /// value and how many bits went in.
    fn push_some_bits(&mut self, value: u64, remaining: usize) -> (left: (u64, usize))
        requires
            1 <= remaining <= 64,
            fits_in(value, remaining as nat),
            old(self)@.pending.len() < 64,
        ensures
            1 <= left.1 <= remaining,
            left.1 == if remaining <= 64 - old(self)@.pending.len() {
                remaining as int
            } else {
                64 - old(self)@.pending.len()
            },
            fits_in(left.0, (remaining - left.1) as nat),
            final(self)@.order == old(self)@.order,
            final(self)@.written == old(self)@.written,
            final(self)@.pending == old(self)@.pending + value_bits(
                old(self)@.order,
                value,
                remaining as nat,
            ).take(left.1 as int),
            value_bits(old(self)@.order, left.0, (remaining - left.1) as nat) == value_bits(
                old(self)@.order,
                value,
                remaining as nat,
            ).skip(left.1 as int),
    {
        let order = self.accumulator.byte_order();
        let available = 64 - self.accumulator.len();
        let to_insert = if remaining < available {
            remaining
        } else {
            available
        };
        let insert_at_next_round = remaining - to_insert;
        proof {
            lemma_split_value(order, value, remaining as nat, to_insert as nat);
        }
        let (part, rest) = match order {
            ByteOrder::BigEndian => (
                value >> (insert_at_next_round as u64),
                keep_low_bits(value, insert_at_next_round),
            ),
            ByteOrder::LittleEndian => (
                keep_low_bits(value, to_insert),
                if to_insert == 64 {
                    0
                } else {
                    value >> (to_insert as u64)
                },
            ),
        };
        self.accumulator.push(part, to_insert);
        proof {
            let first = value_bits(order, part, to_insert as nat);
            let second = value_bits(order, rest, insert_at_next_round as nat);
            assert((first + second).skip(to_insert as int) =~= second);
        }
        (rest, to_insert)
    }

    /// Writes whole bytes and returns how many, which is all of them. With
    /// nothing pending the bytes go to the sink as they are; otherwise their
    /// bits follow the pending bits, so that no byte overtakes a bit written
    /// before it. This never fails.
    pub fn write(&mut self, buf: &[u8]) -> (count: Result<usize, BitReadWriteError>)
        ensures
            count == Ok::<usize, BitReadWriteError>(buf@.len() as usize),
            final(self)@ == old(self)@.after_write(buf@),
            final(self)@.valid(),
    {
        let ghost start = self@;
        self.write_aligned_bytes_to_inner();
        if self.accumulator.len() == 0 {
            let ghost before = self@;
            self.inner.write_all(buf);
            proof {
                assert(self@.emitted() =~= start.emitted() + stream_bits(start.order, buf@));
                assert(self@.written.take(start.written.len() as int) =~= before.written.take(
                    start.written.len() as int,
                ));
            }
        } else {
            let mut processed: usize = 0;
            proof {
                assert(stream_bits(start.order, Seq::<u8>::empty()) =~= Seq::<bool>::empty());
            }
            while processed < buf.len()
                invariant
                    processed <= buf@.len(),
                    advanced_by(start, self@, stream_bits(start.order, buf@.take(processed as int))),
                    self@.pending.len() < 8,
                decreases buf@.len() - processed,
            {
                let ghost before = self@;
                let byte = buf[processed];
                proof {
                    lemma_stream_bits_byte(start.order, buf@, processed as int);
                }
                self.accumulator.push(byte as u64, 8);
                let ghost pushed = self@;
                self.write_aligned_bytes_to_inner();
                proof {
                    let byte_bits = value_bits(start.order, byte as u64, 8);
                    let sofar = stream_bits(start.order, buf@.take(processed as int));
                    lemma_advanced_pending(before, pushed, byte_bits);
                    lemma_advanced_chain(start, before, self@, sofar, byte_bits + Seq::empty());
                    assert(sofar + (byte_bits + Seq::<bool>::empty()) =~= stream_bits(
                        start.order,
                        buf@.take(processed + 1),
                    ));
                }
                processed += 1;
            }
            proof {
                assert(buf@.take(processed as int) =~= buf@);
            }
        }
        proof {
            lemma_advanced_is_absorbed(start, self@, stream_bits(start.order, buf@));
        }
        Ok(buf.len())
    }
}

impl<W: ByteSink> BitWrite for BitWriter<W> {
    /// Writes the low `n` bits of `value`, 1 to 64 of them, in the writer's
    /// bit order. Bits of `value` above them are ignored. Every byte that the
    /// bits complete goes to the sink at once.
    fn write_bits(&mut self, value: u64, n: usize) -> (done: Result<(), BitReadWriteError>)
        ensures
            done == old(self)@.write_bits_outcome(n),
            final(self)@ == old(self)@.after_write_bits(value, n),
            final(self)@.valid(),
    {
        proof {
            self.accumulator.lemma_capacity();
        }
        if n == 0 || n > 64 {
            return Err(BitReadWriteError::InvalidBitCount(n));
        }
        let ghost start = self@;
        let ghost all = value_bits(start.order, value, n as nat);
        let mut remaining = n;
        let mut val = keep_low_bits(value, n);
        proof {
            lemma_low_bits(start.order, value, n as nat);
            assert(start.written.take(start.written.len() as int) =~= start.written);
        }
        while remaining > 0
            invariant
                remaining <= n <= 64,
                all == value_bits(start.order, value, n as nat),
                fits_in(val, remaining as nat),
                value_bits(start.order, val, remaining as nat) == all.skip(n - remaining),
                advanced_by(start, self@, all.take(n - remaining)),
                self@.pending.len() <= 64,
                remaining == 0 ==> self@.pending.len() < 8,
            decreases remaining, self@.pending.len(),
        {
            let ghost before = self@;
            if self.accumulator.len() < 64 {
                let (rest, inserted) = self.push_some_bits(val, remaining);
                proof {
                    let done = n - remaining;
                    let part = all.skip(done).take(inserted as int);
                    lemma_advanced_pending(before, self@, part);
                    lemma_advanced_chain(start, before, self@, all.take(done), part);
                    assert(all.take(done) + part =~= all.take(done + inserted));
                }
                val = rest;
                remaining -= inserted;
            }
            if self.accumulator.len() >= 8 || remaining == 0 {
                let ghost pushed = self@;
                self.write_aligned_bytes_to_inner();
                proof {
                    let sofar = all.take(n - remaining);
                    lemma_advanced_chain(start, pushed, self@, sofar, Seq::empty());
                }
            }
        }
        proof {
            assert(all.take(n as int) =~= all);
            lemma_advanced_is_absorbed(start, self@, all);
        }
        Ok(())
    }
}

} // verus!
