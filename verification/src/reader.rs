//! Bit readers over a byte source: the general reader, a reader that can look
//! ahead, and a reader for spans wider than one register.

use crate::accumulator::BitAccumulator;
use crate::bits::{
    bits_value, front_of_byte, lemma_joined_read, lemma_value_bits_of_bits_value, value_bits,
};
use crate::byte_order::ByteOrder;
use crate::error::BitReadWriteError;
use crate::model::{
    chunk_count, chunk_width, lemma_consume_twice, lemma_consume_unread, lemma_pull_is_prefix,
    lemma_pull_nothing,
    lemma_read_after_full_fill, lemma_read_after_short_fill, lemma_read_after_tight_fill,
    valid_width, ReaderState,
};
use crate::source::{next_byte, ByteSource};
use crate::stream::{bytes_of_bits, lemma_stream_bits_byte, stream_bits};
use crate::traits::{BitPeek, BitRead};
use vstd::prelude::*;

verus! {

/// Reads spans of 1 to 64 bits from a byte source, most significant bit first
/// or least significant bit first, and whole bytes where no part of a byte is
/// pending.
pub struct BitReader<R: ByteSource> {
    inner: R,
    accumulator: BitAccumulator,
}

impl<R: ByteSource> View for BitReader<R> {
    type V = ReaderState;

    closed spec fn view(&self) -> ReaderState {
        ReaderState {
            order: self.accumulator.order(),
            buffered: self.accumulator.bits(),
            remaining: self.inner.remaining(),
        }
    }
}

impl<R: ByteSource> BitReader<R> {
    /// A reader over `inner` that takes the most significant bit first.
    pub fn new(inner: R) -> (reader: Self)
        ensures
            reader@ == ReaderState::fresh(ByteOrder::BigEndian, inner.remaining()),
    {
        Self::with_byte_order(ByteOrder::BigEndian, inner)
    }

    /// A reader over `inner` that takes bits in the given order.
    pub fn with_byte_order(byte_order: ByteOrder, inner: R) -> (reader: Self)
        ensures
            reader@ == ReaderState::fresh(byte_order, inner.remaining()),
    {
        BitReader { inner, accumulator: BitAccumulator::new(byte_order) }
    }

    /// The source that the reader takes its bytes from.
    pub fn get_ref(&self) -> (inner: &R)
        ensures
            inner.remaining() == self@.remaining,
    {
        &self.inner
    }

    /// The source that the reader takes its bytes from, open to change. What
    /// the source is left with is what the reader goes on from; the bits
    /// buffered stay.
    pub fn get_mut(&mut self) -> (inner: &mut R)
        ensures
            inner.remaining() == old(self)@.remaining,
            final(self)@ == (ReaderState {
                order: old(self)@.order,
                buffered: old(self)@.buffered,
                remaining: final(inner).remaining(),
            }),
    {
        &mut self.inner
    }

    /// Ends the reader and hands back its source. Bits still buffered are
    /// lost.
    pub fn into_inner(self) -> (inner: R)
        ensures
            inner.remaining() == self@.remaining,
    {
        self.inner
    }

    /// Whether the reader stands at a byte boundary, so that whole bytes may
    /// be read.
    pub fn is_byte_aligned(&self) -> (aligned: bool)
        ensures
            aligned == self@.is_byte_aligned(),
            self@.valid(),
    {
        self.accumulator.len() % 8 == 0
    }

    /// Pulls from the source the bytes that a read of `n` bits is short of, as
    /// far as the register has room for them.
    fn put_into_bits_buffer(&mut self, n: usize) -> (filled: Result<(), BitReadWriteError>)
        requires
            valid_width(n),
        ensures
            filled == old(self)@.fill_outcome(n as nat),
            final(self)@ == old(self)@.after_fill(n as nat),
            final(self)@.valid(),
    {
        let held = self.accumulator.len();
        let bits_needed = if n > held {
            n - held
        } else {
            0
        };
        let mut bytes_needed = (bits_needed + 7) / 8;
        let max_bytes_needed = (64 - held) / 8;
        if bytes_needed > max_bytes_needed {
            bytes_needed = max_bytes_needed;
        }
        if bytes_needed > 0 {
            let ghost order = self.accumulator.order();
            let ghost before = self.inner.remaining();
            let ghost held_bits = self.accumulator.bits();
            let mut scratch = [0u8; 8];
            let (slice, _) = scratch.split_at_mut(bytes_needed);
            let got = self.inner.read(slice);
            let mut i: usize = 0;
            while i < got
                invariant
                    i <= got <= bytes_needed,
                    held + 8 * bytes_needed <= 64,
                    got <= before.len(),
                    slice@.len() == bytes_needed,
                    forall|j: int| 0 <= j < got ==> slice@[j] == before[j],
                    self.accumulator.order() == order,
                    self.accumulator.bits() == held_bits + stream_bits(order, before.take(i as int)),
                    held_bits.len() == held,
                    self.inner.remaining() == before.skip(got as int),
                decreases got - i,
            {
                let byte = slice[i];
                proof {
                    lemma_stream_bits_byte(order, before, i as int);
                }
                self.accumulator.push(byte as u64, 8);
                i += 1;
            }
            if got < bytes_needed {
                return Err(BitReadWriteError::UnexpectedEof);
            }
        } else {
            proof {
                lemma_pull_nothing(old(self)@);
            }
        }
        Ok(())
    }

    /// The number that the first `n` buffered bits stand for. With `take` the
    /// bits leave the buffer.
    fn get_from_bits_buffer(&mut self, n: usize, take: bool) -> (value: u64)
        requires
            valid_width(n),
            n <= old(self)@.buffered.len(),
        ensures
            value == bits_value(old(self)@.order, old(self)@.buffered.take(n as int)),
            final(self)@.order == old(self)@.order,
            final(self)@.remaining == old(self)@.remaining,
            final(self)@.buffered == if take {
                old(self)@.buffered.skip(n as int)
            } else {
                old(self)@.buffered
            },
    {
        if take {
            self.accumulator.take(n)
        } else {
            self.accumulator.peek(n)
        }
    }
}

impl<R: ByteSource> BitReader<R> {
    /// Reads `n` bits where the buffer, filled to the register's capacity,
    /// holds fewer: the bits held come first, then the front of one more byte.
    fn read_across_capacity(&mut self, n: usize) -> (bits: Result<u64, BitReadWriteError>)
        requires
            valid_width(n),
            56 < old(self)@.buffered.len() < n,
        ensures
            final(self)@.order == old(self)@.order,
            final(self)@.valid(),
            old(self)@.remaining.len() == 0 ==> {
                &&& bits == Err::<u64, BitReadWriteError>(BitReadWriteError::UnexpectedEof)
                &&& final(self)@ == old(self)@
            },
            old(self)@.remaining.len() > 0 ==> {
                let byte_bits = value_bits(old(self)@.order, old(self)@.remaining[0] as u64, 8);
                let tail_len = n - old(self)@.buffered.len();
                &&& bits == Ok::<u64, BitReadWriteError>(
                    bits_value(old(self)@.order, old(self)@.buffered + byte_bits.take(tail_len))
                        as u64,
                )
                &&& final(self)@.buffered == byte_bits.skip(tail_len)
                &&& final(self)@.remaining == old(self)@.remaining.skip(1)
            },
    {
        let held = self.accumulator.len();
        let head = self.get_from_bits_buffer(held, false);
        match next_byte(&mut self.inner) {
            None => Err(BitReadWriteError::UnexpectedEof),
            Some(byte) => {
                let order = self.accumulator.byte_order();
                let tail_len = n - held;
                let _ = self.accumulator.take(held);
                proof {
                    lemma_stream_bits_byte(order, old(self)@.remaining, 0);
                }
                self.accumulator.push(byte as u64, 8);
                let tail = self.accumulator.take(tail_len);
                let value = match order {
                    ByteOrder::BigEndian => (head << (tail_len as u64)) | tail,
                    ByteOrder::LittleEndian => head | (tail << (held as u64)),
                };
                proof {
                    let head_bits = old(self)@.buffered;
                    let byte_bits = value_bits(order, byte as u64, 8);
                    assert(head_bits.take(held as int) =~= head_bits);
                    lemma_joined_read(order, head_bits, byte_bits.take(tail_len as int), head, tail);
                }
                Ok(value)
            },
        }
    }
}

impl<R: ByteSource> BitReader<R> {
    /// Reads one bit: `true` for 1, `false` for 0.
    pub fn read_bool(&mut self) -> (bit: Result<bool, BitReadWriteError>)
        ensures
            bit == match old(self)@.read_outcome(1) {
                Ok(value) => Ok::<bool, BitReadWriteError>(value == 1),
                Err(e) => Err::<bool, BitReadWriteError>(e),
            },
            final(self)@ == old(self)@.after_read(1),
            final(self)@.valid(),
    {
        match self.read_bits(1) {
            Ok(value) => Ok(value == 1),
            Err(e) => Err(e),
        }
    }

    /// Reads whole bytes into `buf` and returns how many. Bytes that sit in
    /// the bit buffer go first, then the source fills what is left of `buf`.
    /// While part of a byte is buffered the call is refused and nothing is
    /// touched.
    pub fn read(&mut self, buf: &mut [u8]) -> (count: Result<usize, BitReadWriteError>)
        ensures
            count == old(self)@.read_bytes_outcome(old(buf)@.len() as usize),
            final(self)@ == old(self)@.after_read_bytes(old(buf)@.len() as usize),
            final(self)@.valid(),
            final(buf)@ == match count {
                Ok(c) => old(self)@.bytes_ahead().take(c as int) + old(buf)@.skip(c as int),
                Err(_) => old(buf)@,
            },
    {
        let held = self.accumulator.len();
        if held % 8 != 0 {
            return Err(BitReadWriteError::UnalignedAccess);
        }
        let ghost start = self@;
        let ghost packed = bytes_of_bits(start.order, start.buffered);
        let mut written: usize = 0;
        while self.accumulator.len() >= 8 && written < buf.len()
            invariant
                held % 8 == 0,
                held == start.buffered.len(),
                held <= 64,
                packed == bytes_of_bits(start.order, start.buffered),
                8 * written <= held,
                written <= buf@.len(),
                buf@.len() == old(buf)@.len(),
                self@.order == start.order,
                self@.remaining == start.remaining,
                self@.buffered == start.buffered.skip(8 * written),
                buf@ == packed.take(written as int) + old(buf)@.skip(written as int),
            decreases held - 8 * written,
        {
            let ghost group = start.buffered.subrange(8 * written, 8 * written + 8);
            let value = self.get_from_bits_buffer(8, true);
            proof {
                assert(start.buffered.skip(8 * written).take(8) =~= group);
                lemma_value_bits_of_bits_value(start.order, group);
            }
            buf[written] = value as u8;
            written += 1;
        }
        if written < buf.len() {
            let (_, rest) = buf.split_at_mut(written);
            let count = self.inner.read(rest);
            written += count;
        }
        proof {
            assert(self@.remaining =~= start.after_read_bytes(old(buf)@.len() as usize).remaining);
        }
        Ok(written)
    }
}

impl<R: ByteSource> BitRead for BitReader<R> {
    type Output = u64;

    /// Reads the next `n` bits, 1 to 64 of them, and returns the number that
    /// they stand for in the reader's bit order.
    ///
    /// Where the source ends before the bits are there, the read fails and
    /// consumes nothing: the bytes that it pulled stay in the buffer, and a
    /// read of no more bits than are left goes through afterwards.
    fn read_bits(&mut self, n: usize) -> (bits: Result<u64, BitReadWriteError>)
        ensures
            bits == old(self)@.read_outcome(n),
            final(self)@ == old(self)@.after_read(n),
            final(self)@.valid(),
    {
        proof {
            self.accumulator.lemma_capacity();
        }
        if n == 0 || n > 64 {
            return Err(BitReadWriteError::InvalidBitCount(n));
        }
        match self.put_into_bits_buffer(n) {
            Err(e) => {
                proof {
                    lemma_read_after_short_fill(old(self)@, n);
                }
                Err(e)
            },
            Ok(()) => {
                if self.accumulator.len() >= n {
                    proof {
                        lemma_read_after_full_fill(old(self)@, n);
                    }
                    Ok(self.get_from_bits_buffer(n, true))
                } else {
                    proof {
                        lemma_read_after_tight_fill(old(self)@, n);
                    }
                    self.read_across_capacity(n)
                }
            },
        }
    }
}

impl<R: ByteSource> BitPeek for BitReader<R> {
    type Output = u64;

    /// Returns what reading the next `n` bits would return, 1 to 64 of them,
    /// and leaves them unread. Bytes that this takes from the source stay in
    /// the buffer. Where the register cannot hold `n` bits at the current
    /// alignment, the last of them are looked up in the next byte of the
    /// source, which stays with the source.
    fn peek_bits(&mut self, n: usize) -> (bits: Result<u64, BitReadWriteError>)
        ensures
            bits == old(self)@.peek_outcome(n),
            final(self)@ == old(self)@.after_peek(n),
            final(self)@.valid(),
    {
        proof {
            self.accumulator.lemma_capacity();
        }
        if n == 0 || n > 64 {
            return Err(BitReadWriteError::InvalidBitCount(n));
        }
        match self.put_into_bits_buffer(n) {
            Err(e) => {
                proof {
                    lemma_read_after_short_fill(old(self)@, n);
                }
                Err(e)
            },
            Ok(()) => {
                if self.accumulator.len() >= n {
                    proof {
                        lemma_read_after_full_fill(old(self)@, n);
                    }
                    Ok(self.get_from_bits_buffer(n, false))
                } else {
                    proof {
                        lemma_read_after_tight_fill(old(self)@, n);
                    }
                    self.peek_across_capacity(n)
                }
            },
        }
    }
}

impl<R: ByteSource> BitReader<R> {
    /// Looks at `n` bits where the buffer, filled to the register's
    /// capacity, holds fewer: the bits held come first, then the front of the
    /// next byte of the source, which is left where it is.
    fn peek_across_capacity(&self, n: usize) -> (bits: Result<u64, BitReadWriteError>)
        requires
            valid_width(n),
            56 < self@.buffered.len() < n,
        ensures
            self@.remaining.len() == 0 ==> bits == Err::<u64, BitReadWriteError>(
                BitReadWriteError::UnexpectedEof,
            ),
            self@.remaining.len() > 0 ==> bits == Ok::<u64, BitReadWriteError>(
                bits_value(
                    self@.order,
                    self@.buffered + value_bits(self@.order, self@.remaining[0] as u64, 8).take(
                        n - self@.buffered.len(),
                    ),
                ) as u64,
            ),
    {
        let held = self.accumulator.len();
        let head = self.accumulator.peek(held);
        match self.inner.peek_byte() {
            None => Err(BitReadWriteError::UnexpectedEof),
            Some(byte) => {
                let order = self.accumulator.byte_order();
                let tail_len = n - held;
                let tail = front_of_byte(order, byte, tail_len);
                let value = match order {
                    ByteOrder::BigEndian => (head << (tail_len as u64)) | tail,
                    ByteOrder::LittleEndian => head | (tail << (held as u64)),
                };
                proof {
                    let head_bits = self@.buffered;
                    let byte_bits = value_bits(order, byte as u64, 8);
                    assert(head_bits.take(held as int) =~= head_bits);
                    lemma_joined_read(order, head_bits, byte_bits.take(tail_len as int), head, tail);
                }
                Ok(value)
            },
        }
    }
}

/// A bit reader for reading and looking ahead, and nothing else.
pub struct PeekableBitReader<R: ByteSource> {
    inner: BitReader<R>,
}

impl<R: ByteSource> View for PeekableBitReader<R> {
    type V = ReaderState;

    closed spec fn view(&self) -> ReaderState {
        self.inner@
    }
}

impl<R: ByteSource> PeekableBitReader<R> {
    /// A peekable reader over `inner` that takes the most significant bit
    /// first.
    pub fn new(inner: R) -> (reader: Self)
        ensures
            reader@ == ReaderState::fresh(ByteOrder::BigEndian, inner.remaining()),
    {
        PeekableBitReader { inner: BitReader::new(inner) }
    }

    /// A peekable reader over `inner` that takes the least significant bit
    /// first.
    pub fn with_byte_order(inner: R) -> (reader: Self)
        ensures
            reader@ == ReaderState::fresh(ByteOrder::LittleEndian, inner.remaining()),
    {
        PeekableBitReader { inner: BitReader::with_byte_order(ByteOrder::LittleEndian, inner) }
    }

    /// The source that the reader takes its bytes from.
    pub fn get_ref(&self) -> (inner: &R)
        ensures
            inner.remaining() == self@.remaining,
    {
        self.inner.get_ref()
    }

    /// The source that the reader takes its bytes from, open to change. What
    /// the source is left with is what the reader goes on from; the bits
    /// buffered stay.
    pub fn get_mut(&mut self) -> (inner: &mut R)
        ensures
            inner.remaining() == old(self)@.remaining,
            final(self)@ == (ReaderState {
                order: old(self)@.order,
                buffered: old(self)@.buffered,
                remaining: final(inner).remaining(),
            }),
    {
        self.inner.get_mut()
    }
}

impl<R: ByteSource> BitRead for PeekableBitReader<R> {
    type Output = u64;

    /// Reads the next `n` bits, 1 to 64 of them, and returns the number that
    /// they stand for in the reader's bit order.
    fn read_bits(&mut self, n: usize) -> (bits: Result<u64, BitReadWriteError>)
        ensures
            bits == old(self)@.read_outcome(n),
            final(self)@ == old(self)@.after_read(n),
            final(self)@.valid(),
    {
        self.inner.read_bits(n)
    }
}

impl<R: ByteSource> BitPeek for PeekableBitReader<R> {
    type Output = u64;

    /// Returns what reading the next `n` bits would return, 1 to 64 of them,
    /// and leaves them unread. Bytes that this takes from the source stay in
    /// the buffer.
    fn peek_bits(&mut self, n: usize) -> (bits: Result<u64, BitReadWriteError>)
        ensures
            bits == old(self)@.peek_outcome(n),
            final(self)@ == old(self)@.after_peek(n),
            final(self)@.valid(),
    {
        self.inner.peek_bits(n)
    }
}

/// Consuming nothing changes nothing.
proof fn lemma_consume_nothing(state: ReaderState)
    ensures
        state.consume(0) == state,
{
    lemma_pull_nothing(state);
    assert(state.consume(0).buffered =~= state.buffered);
}

/// One chunk of a bulk read that the source can meet: the chunk's number
/// stands for its own bits, and the state is that of all chunks so far
/// consumed at once.
proof fn lemma_bulk_chunk_read(start: ReaderState, done: nat, take: usize)
    requires
        valid_width(take),
        done + take <= start.unread().len(),
    ensures
        start.consume(done).read_outcome(take) == Ok::<u64, BitReadWriteError>(
            bits_value(start.order, start.unread().subrange(done as int, done + take)) as u64,
        ),
        start.consume(done).after_read(take) == start.consume(done + take as nat),
{
    lemma_consume_unread(start, done);
    lemma_consume_twice(start, done, take as nat);
    assert(start.unread().skip(done as int).take(take as int) =~= start.unread().subrange(
        done as int,
        done + take,
    ));
}

/// The chunk of a bulk read at which the source ends: every chunk of 64 bits
/// before it is consumed and all that is left sits in the buffer.
proof fn lemma_bulk_chunk_short(start: ReaderState, n: usize, done: nat, take: usize)
    requires
        valid_width(take),
        done % 64 == 0,
        done + take <= n,
        done <= start.unread().len() < done + take,
    ensures
        start.consume(done).read_outcome(take) == Err::<u64, BitReadWriteError>(
            BitReadWriteError::UnexpectedEof,
        ),
        start.bulk_read_outcome(n) == Err::<Seq<u64>, BitReadWriteError>(
            BitReadWriteError::UnexpectedEof,
        ),
        start.consume(done).after_read(take) == start.after_bulk_read(n),
{
    let unread = start.unread();
    let current = start.consume(done);
    lemma_consume_unread(start, done);
    lemma_pull_is_prefix(current, current.remaining.len());
    let drained = start.pull(start.remaining.len());
    lemma_pull_is_prefix(start, start.remaining.len());
    assert(drained.buffered =~= unread);
    assert(drained.remaining =~= Seq::<u8>::empty());
    lemma_pull_nothing(drained);
    assert(done == 64 * (unread.len() / 64));
    let after = current.after_read(take);
    assert(after.buffered =~= unread.skip(done as int));
    assert(after.remaining =~= Seq::<u8>::empty());
    assert(after.buffered =~= drained.consume(done).buffered);
    assert(after.remaining =~= drained.consume(done).remaining);
}

/// Reads spans of any width as a sequence of chunks of at most 64 bits.
pub struct BulkBitReader<R: ByteSource> {
    inner: BitReader<R>,
}

impl<R: ByteSource> View for BulkBitReader<R> {
    type V = ReaderState;

    closed spec fn view(&self) -> ReaderState {
        self.inner@
    }
}

impl<R: ByteSource> BulkBitReader<R> {
    /// A bulk reader over `inner` that takes the most significant bit first.
    pub fn new(inner: R) -> (reader: Self)
        ensures
            reader@ == ReaderState::fresh(ByteOrder::BigEndian, inner.remaining()),
    {
        BulkBitReader { inner: BitReader::new(inner) }
    }

    /// A bulk reader over `inner` that takes bits in the given order.
    pub fn with_endianness(endianness: ByteOrder, inner: R) -> (reader: Self)
        ensures
            reader@ == ReaderState::fresh(endianness, inner.remaining()),
    {
        BulkBitReader { inner: BitReader::with_byte_order(endianness, inner) }
    }

    /// The source that the reader takes its bytes from.
    pub fn get_ref(&self) -> (inner: &R)
        ensures
            inner.remaining() == self@.remaining,
    {
        self.inner.get_ref()
    }

    /// The source that the reader takes its bytes from, open to change. What
    /// the source is left with is what the reader goes on from; the bits
    /// buffered stay.
    pub fn get_mut(&mut self) -> (inner: &mut R)
        ensures
            inner.remaining() == old(self)@.remaining,
            final(self)@ == (ReaderState {
                order: old(self)@.order,
                buffered: old(self)@.buffered,
                remaining: final(inner).remaining(),
            }),
    {
        self.inner.get_mut()
    }
}

impl<R: ByteSource> BulkBitReader<R> {
    /// Reads the chunk of `take` bits that follows `done` bits of a bulk read
    /// of `n` bits that began in state `start`.
    fn read_chunk(
        &mut self,
        take: usize,
        Ghost(start): Ghost<ReaderState>,
        Ghost(n): Ghost<usize>,
        Ghost(done): Ghost<nat>,
    ) -> (chunk: Result<u64, BitReadWriteError>)
        requires
            valid_width(take),
            done % 64 == 0,
            done + take <= n,
            take == chunk_width(n as nat, done as int / 64),
            done <= start.unread().len(),
            old(self)@ == start.consume(done),
        ensures
            final(self)@.valid(),
            match chunk {
                Ok(value) => {
                    &&& done + take <= start.unread().len()
                    &&& value == start.bulk_chunk(n as nat, done as int / 64)
                    &&& final(self)@ == start.consume(done + take as nat)
                },
                Err(e) => {
                    &&& start.bulk_read_outcome(n) == Err::<Seq<u64>, BitReadWriteError>(e)
                    &&& final(self)@ == start.after_bulk_read(n)
                },
            },
    {
        proof {
            if done + take <= start.unread().len() {
                lemma_bulk_chunk_read(start, done, take);
            } else {
                lemma_bulk_chunk_short(start, n, done, take);
            }
        }
        self.inner.read_bits(take)
    }
}

impl<R: ByteSource> BitRead for BulkBitReader<R> {
    type Output = Vec<u64>;

    /// Reads the next `n` bits, one or more, in chunks of 64 bits and one
    /// chunk for what is left. Each number stands for the bits of its own
    /// chunk; the caller puts them together.
    fn read_bits(&mut self, n: usize) -> (chunks: Result<Vec<u64>, BitReadWriteError>)
        ensures
            match chunks {
                Ok(values) => old(self)@.bulk_read_outcome(n) == Ok::<
                    Seq<u64>,
                    BitReadWriteError,
                >(values@),
                Err(e) => old(self)@.bulk_read_outcome(n) == Err::<Seq<u64>, BitReadWriteError>(e),
            },
            final(self)@ == old(self)@.after_bulk_read(n),
            final(self)@.valid(),
    {
        proof {
            self.inner.accumulator.lemma_capacity();
        }
        if n == 0 {
            return Err(BitReadWriteError::InvalidBitCount(n));
        }
        let ghost start = self@;
        let mut remaining = n;
        let mut chunks: Vec<u64> = Vec::new();
        proof {
            lemma_consume_nothing(start);
        }
        while remaining > 0
            invariant
                0 < n,
                remaining <= n,
                start == old(self)@,
                remaining > 0 ==> (n - remaining) % 64 == 0,
                n - remaining <= start.unread().len(),
                chunks@.len() == chunk_count((n - remaining) as nat),
                forall|i: int|
                    0 <= i < chunks@.len() ==> chunks@[i] == #[trigger] start.bulk_chunk(
                        n as nat,
                        i,
                    ),
                self@ == start.consume((n - remaining) as nat),
                self@.valid(),
            decreases remaining,
        {
            let take = if remaining < 64 {
                remaining
            } else {
                64
            };
            let ghost done = (n - remaining) as nat;
            match self.read_chunk(take, Ghost(start), Ghost(n), Ghost(done)) {
                Ok(value) => {
                    chunks.push(value);
                },
                Err(e) => {
                    return Err(e);
                },
            }
            remaining -= take;
        }
        assert(chunks@ =~= start.bulk_read_outcome(n)->Ok_0);
        Ok(chunks)
    }
}

/// Once a fill for a width has gone through, a fill for no greater a width
/// asks for nothing more, and the unread bits are as they were.
proof fn lemma_fill_settles(state: ReaderState, first: nat, later: nat)
    requires
        state.valid(),
        1 <= later <= first <= 64,
        state.fill_outcome(first) is Ok,
    ensures
        state.after_fill(first).valid(),
        state.after_fill(first).unread() == state.unread(),
        state.after_fill(first).after_fill(later) == state.after_fill(first),
{
    let filled = state.after_fill(first);
    lemma_pull_is_prefix(state, state.fill_request(first));
    lemma_pull_nothing(filled);
}

impl<R: ByteSource> BulkBitReader<R> {
    /// Peeks at the chunk of `take` bits that follows `done` bits of a bulk
    /// peek at `n` bits that began in state `start`.
    fn peek_chunk(
        &mut self,
        take: usize,
        Ghost(start): Ghost<ReaderState>,
        Ghost(n): Ghost<usize>,
        Ghost(done): Ghost<nat>,
    ) -> (chunk: Result<u64, BitReadWriteError>)
        requires
            valid_width(take),
            start.valid(),
            done % 64 == 0,
            done + take <= n,
            take == chunk_width(n as nat, done as int / 64),
            old(self)@ == if done == 0 {
                start
            } else {
                start.after_fill(chunk_width(n as nat, 0))
            },
            done > 0 ==> chunk_width(n as nat, 0) <= start.unread().len(),
        ensures
            final(self)@.valid(),
            final(self)@ == start.after_bulk_peek(n),
            match chunk {
                Ok(value) => {
                    &&& chunk_width(n as nat, 0) <= start.unread().len()
                    &&& value == start.bulk_peek_chunk(n as nat, done as int / 64)
                },
                Err(e) => start.bulk_peek_outcome(n) == Err::<Seq<u64>, BitReadWriteError>(e),
            },
    {
        proof {
            if done > 0 {
                lemma_fill_settles(start, chunk_width(n as nat, 0), take as nat);
            }
        }
        self.inner.peek_bits(take)
    }
}

impl<R: ByteSource> BitPeek for BulkBitReader<R> {
    type Output = Vec<u64>;

    /// Peeks at `n` bits, one or more, chunk by chunk: as many numbers as a
    /// read of `n` bits returns, each a peek at as many bits as that chunk
    /// holds. Nothing is consumed between the chunks, so each of them starts
    /// at the reader's position.
    fn peek_bits(&mut self, n: usize) -> (chunks: Result<Vec<u64>, BitReadWriteError>)
        ensures
            match chunks {
                Ok(values) => old(self)@.bulk_peek_outcome(n) == Ok::<
                    Seq<u64>,
                    BitReadWriteError,
                >(values@),
                Err(e) => old(self)@.bulk_peek_outcome(n) == Err::<Seq<u64>, BitReadWriteError>(e),
            },
            final(self)@ == old(self)@.after_bulk_peek(n),
            final(self)@.valid(),
    {
        proof {
            self.inner.accumulator.lemma_capacity();
        }
        if n == 0 {
            return Err(BitReadWriteError::InvalidBitCount(n));
        }
        let ghost start = self@;
        let mut remaining = n;
        let mut chunks: Vec<u64> = Vec::new();
        while remaining > 0
            invariant
                0 < n,
                remaining <= n,
                start == old(self)@,
                start.valid(),
                remaining > 0 ==> (n - remaining) % 64 == 0,
                chunks@.len() == chunk_count((n - remaining) as nat),
                forall|i: int|
                    0 <= i < chunks@.len() ==> chunks@[i] == #[trigger] start.bulk_peek_chunk(
                        n as nat,
                        i,
                    ),
                remaining < n ==> chunk_width(n as nat, 0) <= start.unread().len(),
                self@ == if remaining == n {
                    start
                } else {
                    start.after_bulk_peek(n)
                },
                self@.valid(),
            decreases remaining,
        {
            let take = if remaining < 64 {
                remaining
            } else {
                64
            };
            let ghost done = (n - remaining) as nat;
            match self.peek_chunk(take, Ghost(start), Ghost(n), Ghost(done)) {
                Ok(value) => {
                    chunks.push(value);
                },
                Err(e) => {
                    return Err(e);
                },
            }
            remaining -= take;
        }
        assert(chunks@ =~= start.bulk_peek_outcome(n)->Ok_0);
        Ok(chunks)
    }
}

} // verus!
