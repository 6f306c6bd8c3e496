//! What readers and writers are, seen from outside: the bits they hold, the
//! bytes around them, and what each operation makes of both.

use crate::bits::{bits_value, value_bits, zero_bits};
use crate::byte_order::ByteOrder;
use crate::error::BitReadWriteError;
use crate::source::min_len;
use crate::stream::{bytes_of_bits, lemma_stream_bits_skip, stream_bits};
use vstd::prelude::*;

verus! {

/// Whether one bit-level operation handles a span of `n` bits.
pub open spec fn valid_width(n: usize) -> bool {
    1 <= n <= 64
}

/// The state of a bit reader: the bits it has buffered, oldest first, and the
/// bytes that its source has yet to deliver.
pub struct ReaderState {
    pub order: ByteOrder,
    pub buffered: Seq<bool>,
    pub remaining: Seq<u8>,
}

impl ReaderState {
    /// A reader that has touched nothing of `bytes` yet.
    pub open spec fn fresh(order: ByteOrder, bytes: Seq<u8>) -> ReaderState {
        ReaderState { order, buffered: Seq::empty(), remaining: bytes }
    }

    /// The buffer never holds more than one register's worth of bits.
    pub open spec fn valid(self) -> bool {
        self.buffered.len() <= 64
    }

    /// The bits that have not been read: the buffered ones, then those of the
    /// source.
    pub open spec fn unread(self) -> Seq<bool> {
        self.buffered + stream_bits(self.order, self.remaining)
    }

    /// No part of a byte is buffered.
    pub open spec fn is_byte_aligned(self) -> bool {
        self.buffered.len() % 8 == 0
    }

    /// The state after up to `count` bytes of the source have joined the
    /// buffer, fewer where the source has fewer.
    pub open spec fn pull(self, count: nat) -> ReaderState {
        let k = min_len(count, self.remaining.len());
        ReaderState {
            order: self.order,
            buffered: self.buffered + stream_bits(self.order, self.remaining.take(k as int)),
            remaining: self.remaining.skip(k as int),
        }
    }

    /// The least number of bytes that bring the buffer to `n` bits.
    pub open spec fn bytes_missing(self, n: nat) -> nat {
        if n <= self.buffered.len() {
            0
        } else {
            ((n - self.buffered.len() + 7) / 8) as nat
        }
    }

    /// The number of bytes that a fill for `n` bits asks of the source: those
    /// missing, but no more than the register has room for.
    pub open spec fn fill_request(self, n: nat) -> nat {
        min_len(self.bytes_missing(n), ((64 - self.buffered.len()) / 8) as nat)
    }

    /// Whether the source can meet a fill for `n` bits.
    pub open spec fn fill_outcome(self, n: nat) -> Result<(), BitReadWriteError> {
        if self.fill_request(n) <= self.remaining.len() {
            Ok(())
        } else {
            Err(BitReadWriteError::UnexpectedEof)
        }
    }

    /// The state after a fill for `n` bits. Bytes pulled before a shortfall
    /// stay in the buffer.
    pub open spec fn after_fill(self, n: nat) -> ReaderState {
        self.pull(self.fill_request(n))
    }

    /// The state after `n` unread bits have been consumed, the source giving
    /// just the bytes that this takes.
    pub open spec fn consume(self, n: nat) -> ReaderState
        recommends
            n <= self.unread().len(),
    {
        let filled = self.pull(self.bytes_missing(n));
        ReaderState {
            order: self.order,
            buffered: filled.buffered.skip(n as int),
            remaining: filled.remaining,
        }
    }

    /// What reading `n` bits returns: the number that the next `n` unread
    /// bits stand for, or why there is none.
    pub open spec fn read_outcome(self, n: usize) -> Result<u64, BitReadWriteError> {
        if !valid_width(n) {
            Err(BitReadWriteError::InvalidBitCount(n))
        } else if self.unread().len() < n {
            Err(BitReadWriteError::UnexpectedEof)
        } else {
            Ok(bits_value(self.order, self.unread().take(n as int)) as u64)
        }
    }

    /// The state after reading `n` bits. A refused width changes nothing; a
    /// source that ends too early has all its bytes pulled into the buffer.
    pub open spec fn after_read(self, n: usize) -> ReaderState {
        if !valid_width(n) {
            self
        } else if self.unread().len() < n {
            self.pull(self.remaining.len())
        } else {
            self.consume(n as nat)
        }
    }

    /// What peeking at `n` bits returns: what reading them would return.
    pub open spec fn peek_outcome(self, n: usize) -> Result<u64, BitReadWriteError> {
        self.read_outcome(n)
    }

    /// The state after peeking at `n` bits: filled as far as the register
    /// has room, nothing consumed.
    pub open spec fn after_peek(self, n: usize) -> ReaderState {
        if !valid_width(n) {
            self
        } else {
            self.after_fill(n as nat)
        }
    }

    /// The whole bytes ahead of an aligned reader: those buffered, then those
    /// of the source.
    pub open spec fn bytes_ahead(self) -> Seq<u8> {
        bytes_of_bits(self.order, self.buffered) + self.remaining
    }

    /// What reading whole bytes into a buffer of `len` bytes returns: the
    /// number of bytes delivered, or a refusal where part of a byte is
    /// buffered.
    pub open spec fn read_bytes_outcome(self, len: usize) -> Result<usize, BitReadWriteError> {
        if !self.is_byte_aligned() {
            Err(BitReadWriteError::UnalignedAccess)
        } else {
            Ok(min_len(len as nat, self.bytes_ahead().len()) as usize)
        }
    }

    /// The state after reading whole bytes into a buffer of `len` bytes.
    /// Buffered bytes go first; the source is touched only once they are
    /// gone, and not at all on a refusal.
    pub open spec fn after_read_bytes(self, len: usize) -> ReaderState {
        if !self.is_byte_aligned() {
            self
        } else {
            let from_buffer = min_len(len as nat, self.buffered.len() / 8);
            let from_source = min_len((len - from_buffer) as nat, self.remaining.len());
            ReaderState {
                order: self.order,
                buffered: self.buffered.skip(8 * from_buffer as int),
                remaining: self.remaining.skip(from_source as int),
            }
        }
    }

    /// What reading `n` bits in chunks returns: one number for every 64 bits
    /// and one for what is left, each standing for its own bits alone.
    pub open spec fn bulk_read_outcome(self, n: usize) -> Result<Seq<u64>, BitReadWriteError> {
        if n == 0 {
            Err(BitReadWriteError::InvalidBitCount(n))
        } else if self.unread().len() < n {
            Err(BitReadWriteError::UnexpectedEof)
        } else {
            Ok(Seq::new(chunk_count(n as nat), |i: int| self.bulk_chunk(n as nat, i)))
        }
    }

    /// The number that chunk `i` of the next `n` unread bits stands for.
    pub open spec fn bulk_chunk(self, n: nat, i: int) -> u64 {
        bits_value(
            self.order,
            self.unread().subrange(64 * i, 64 * i + chunk_width(n, i)),
        ) as u64
    }

    /// The state after reading `n` bits in chunks. Where the source ends too
    /// early, the chunks of 64 bits that were there are consumed and all that
    /// is left sits in the buffer.
    pub open spec fn after_bulk_read(self, n: usize) -> ReaderState {
        if n == 0 {
            self
        } else if self.unread().len() < n {
            self.pull(self.remaining.len()).consume(64 * (self.unread().len() / 64))
        } else {
            self.consume(n as nat)
        }
    }

    /// What peeking at `n` bits in chunks returns. No chunk consumes
    /// anything, so every chunk starts at the reader's position: chunk `i`
    /// is a peek at as many bits as chunk `i` of a read would hold. The peek
    /// fails where the first chunk, which is the widest, is not all there.
    pub open spec fn bulk_peek_outcome(self, n: usize) -> Result<Seq<u64>, BitReadWriteError> {
        if n == 0 {
            Err(BitReadWriteError::InvalidBitCount(n))
        } else if self.unread().len() < chunk_width(n as nat, 0) {
            Err(BitReadWriteError::UnexpectedEof)
        } else {
            Ok(Seq::new(chunk_count(n as nat), |i: int| self.bulk_peek_chunk(n as nat, i)))
        }
    }

    /// The number that chunk `i` of a peek at `n` bits stands for: the first
    /// unread bits, as many as the chunk is wide.
    pub open spec fn bulk_peek_chunk(self, n: nat, i: int) -> u64 {
        bits_value(self.order, self.unread().take(chunk_width(n, i) as int)) as u64
    }

    /// The state after peeking at `n` bits in chunks: filled for the first
    /// chunk, which is the widest.
    pub open spec fn after_bulk_peek(self, n: usize) -> ReaderState {
        if n == 0 {
            self
        } else {
            self.after_fill(chunk_width(n as nat, 0))
        }
    }
}

/// The number of chunks that a span of `n` bits splits into.
pub open spec fn chunk_count(n: nat) -> nat {
    (n + 63) / 64
}

/// The width of chunk `i` of a span of `n` bits: 64, or what is left at the
/// end.
pub open spec fn chunk_width(n: nat, i: int) -> nat {
    if 64 * (i + 1) <= n {
        64
    } else {
        (n - 64 * i) as nat
    }
}

/// The state of a bit writer: the bytes that its sink has received and the
/// bits that wait for a byte to fill, oldest first.
pub struct WriterState {
    pub order: ByteOrder,
    pub written: Seq<u8>,
    pub pending: Seq<bool>,
}

impl WriterState {
    /// A writer that holds no bit, over a sink that has received `written`.
    pub open spec fn fresh(order: ByteOrder, written: Seq<u8>) -> WriterState {
        WriterState { order, written, pending: Seq::empty() }
    }

    /// The pending bits never exceed one register's worth.
    pub open spec fn valid(self) -> bool {
        self.pending.len() <= 64
    }

    /// All the bits that the writer has taken in: those of the bytes in the
    /// sink, then those pending.
    pub open spec fn emitted(self) -> Seq<bool> {
        stream_bits(self.order, self.written) + self.pending
    }

    /// The state after `bits` have joined the pending bits and every whole
    /// byte among them has gone to the sink.
    pub open spec fn absorb(self, bits: Seq<bool>) -> WriterState {
        let all = self.pending + bits;
        WriterState {
            order: self.order,
            written: self.written + bytes_of_bits(self.order, all),
            pending: all.skip(8 * (all.len() / 8) as int),
        }
    }

    /// What writing `n` bits returns: success for every width from 1 to 64.
    pub open spec fn write_bits_outcome(self, n: usize) -> Result<(), BitReadWriteError> {
        if valid_width(n) {
            Ok(())
        } else {
            Err(BitReadWriteError::InvalidBitCount(n))
        }
    }

    /// The state after writing the low `n` bits of `value`. A refused width
    /// changes nothing.
    pub open spec fn after_write_bits(self, value: u64, n: usize) -> WriterState {
        if valid_width(n) {
            self.absorb(value_bits(self.order, value, n as nat))
        } else {
            self
        }
    }

    /// The state after writing whole bytes: their bits follow the pending
    /// bits, so that no byte overtakes a bit written before it.
    pub open spec fn after_write(self, bytes: Seq<u8>) -> WriterState {
        self.absorb(stream_bits(self.order, bytes))
    }

    /// The byte that carries the pending bits of a part of a byte, zero bits
    /// filling it up behind them.
    pub open spec fn padded_byte(self) -> u8
        recommends
            0 < self.pending.len() < 8,
    {
        bits_value(self.order, self.pending + zero_bits((8 - self.pending.len()) as nat)) as u8
    }

    /// The state after a flush: whole bytes go to the sink, then what is left
    /// of a byte, padded with zero bits. Nothing stays pending.
    pub open spec fn after_flush(self) -> WriterState {
        let drained = self.absorb(Seq::empty());
        if drained.pending.len() == 0 {
            drained
        } else {
            WriterState {
                order: self.order,
                written: drained.written.push(drained.padded_byte()),
                pending: Seq::empty(),
            }
        }
    }
}

/// What a fill leaves in the buffer is the front of the unread bits.
pub proof fn lemma_pull_is_prefix(state: ReaderState, count: nat)
    ensures
        state.pull(count).unread() == state.unread(),
        state.pull(count).buffered == state.unread().take(state.pull(count).buffered.len() as int),
        state.pull(count).buffered.len() == state.buffered.len() + 8 * min_len(
            count,
            state.remaining.len(),
        ),
{
    let k = min_len(count, state.remaining.len()) as int;
    lemma_stream_bits_skip(state.order, state.remaining, k);
}

/// A fill that the source cannot meet is a read that fails, with every byte
/// of the source pulled.
pub proof fn lemma_read_after_short_fill(state: ReaderState, n: usize)
    requires
        valid_width(n),
        state.valid(),
        state.fill_outcome(n as nat) is Err,
    ensures
        state.read_outcome(n) == Err::<u64, BitReadWriteError>(BitReadWriteError::UnexpectedEof),
        state.after_read(n) == state.after_fill(n as nat),
{
}

/// A fill that brings the buffer to `n` bits leaves the read to the buffer.
pub proof fn lemma_read_after_full_fill(state: ReaderState, n: usize)
    requires
        valid_width(n),
        state.valid(),
        state.fill_outcome(n as nat) is Ok,
        state.after_fill(n as nat).buffered.len() >= n,
    ensures
        state.read_outcome(n) == Ok::<u64, BitReadWriteError>(
            bits_value(state.order, state.after_fill(n as nat).buffered.take(n as int)) as u64,
        ),
        state.after_read(n) == (ReaderState {
            order: state.order,
            buffered: state.after_fill(n as nat).buffered.skip(n as int),
            remaining: state.after_fill(n as nat).remaining,
        }),
{
    let request = state.fill_request(n as nat);
    assert(request == state.bytes_missing(n as nat));
    assert(state.after_fill(n as nat).buffered.take(n as int) =~= state.unread().take(n as int));
}

/// A fill that stops at the register's capacity short of `n` bits leaves the
/// read in need of one more byte, of which it takes the front.
pub proof fn lemma_read_after_tight_fill(state: ReaderState, n: usize)
    requires
        valid_width(n),
        state.valid(),
        state.fill_outcome(n as nat) is Ok,
        state.after_fill(n as nat).buffered.len() < n,
    ensures
        ({
            let filled = state.after_fill(n as nat);
            let held = filled.buffered.len() as int;
            &&& 56 < held
            &&& filled.remaining.len() == 0 ==> {
                &&& state.read_outcome(n) == Err::<u64, BitReadWriteError>(
                    BitReadWriteError::UnexpectedEof,
                )
                &&& state.after_read(n) == filled
            }
            &&& filled.remaining.len() > 0 ==> {
                let byte_bits = value_bits(state.order, filled.remaining[0] as u64, 8);
                &&& state.read_outcome(n) == Ok::<u64, BitReadWriteError>(
                    bits_value(state.order, filled.buffered + byte_bits.take(n - held)) as u64,
                )
                &&& state.after_read(n) == (ReaderState {
                    order: state.order,
                    buffered: byte_bits.skip(n - held),
                    remaining: filled.remaining.skip(1),
                })
            }
        }),
{
    let order = state.order;
    let request = state.fill_request(n as nat);
    let missing = state.bytes_missing(n as nat);
    let filled = state.after_fill(n as nat);
    let held = filled.buffered.len() as int;
    assert(missing == request + 1);
    if filled.remaining.len() == 0 {
        assert(request == state.remaining.len());
    } else {
        let byte_bits = value_bits(order, filled.remaining[0] as u64, 8);
        assert(state.unread().take(n as int) =~= filled.buffered + byte_bits.take(n - held));
        assert(state.consume(n as nat).buffered =~= byte_bits.skip(n - held));
        assert(state.consume(n as nat).remaining =~= filled.remaining.skip(1));
    }
}

/// Pulling no byte changes nothing.
pub proof fn lemma_pull_nothing(state: ReaderState)
    ensures
        state.pull(0) == state,
{
    assert(state.pull(0).remaining =~= state.remaining);
}

/// Consuming bits drops them from the front of the unread bits.
pub proof fn lemma_consume_unread(state: ReaderState, n: nat)
    requires
        n <= state.unread().len(),
    ensures
        state.consume(n).unread() == state.unread().skip(n as int),
        state.bytes_missing(n) <= state.remaining.len(),
{
    let filled = state.pull(state.bytes_missing(n));
    assert(state.consume(n).unread() =~= filled.unread().skip(n as int));
}

/// Consuming in two steps is consuming the sum at once.
pub proof fn lemma_consume_twice(state: ReaderState, a: nat, b: nat)
    requires
        a + b <= state.unread().len(),
    ensures
        state.consume(a).consume(b) == state.consume(a + b),
{
    let order = state.order;
    let first = state.consume(a);
    let k1 = state.bytes_missing(a);
    let k2 = first.bytes_missing(b);
    let k = state.bytes_missing(a + b);
    lemma_stream_bits_skip(order, state.remaining, k1 as int);
    assert(state.remaining.skip(k1 as int).skip(k2 as int) =~= state.remaining.skip(k as int));
    assert(first.consume(b).buffered =~= state.consume(a + b).buffered);
}

} // verus!
