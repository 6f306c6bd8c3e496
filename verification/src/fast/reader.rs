//! Fast bit readers: one per bit order, each filling its register in bursts
//! of up to eight bytes. They read bits and nothing else.

use crate::bits::{
    bits_value, fits_in, keep_low_bits, lemma_bits_value_of_value_bits, lemma_join_values,
    lemma_joined_read, lemma_zero_fits, value_bits,
};
use crate::byte_order::ByteOrder;
use crate::error::BitReadWriteError;
use crate::model::{
    lemma_pull_nothing, lemma_read_after_full_fill, lemma_read_after_tight_fill, valid_width,
    ReaderState,
};
use crate::register::{
    lemma_register_drop, lemma_register_is_clean_when_zero, lemma_register_peek,
    lemma_register_push, register_bits, register_clean, register_peek,
};
use crate::source::{next_byte, ByteSource};
use crate::stream::{lemma_stream_bits_byte, stream_bits};
use vstd::prelude::*;

verus! {

/// The number that the first `count` bytes of `bytes` stand for, the first
/// byte on top.
fn assemble_big(bytes: &[u8], count: usize) -> (value: u64)
    requires
        count <= 8,
        count <= bytes@.len(),
    ensures
        fits_in(value, 8 * count as nat),
        value_bits(ByteOrder::BigEndian, value, 8 * count as nat) == stream_bits(
            ByteOrder::BigEndian,
            bytes@.take(count as int),
        ),
{
    let ghost order = ByteOrder::BigEndian;
    let mut value: u64 = 0;
    let mut i: usize = 0;
    proof {
        lemma_zero_fits(0);
    }
    while i < count
        invariant
            i <= count <= 8,
            count <= bytes@.len(),
            order == ByteOrder::BigEndian,
            fits_in(value, 8 * i as nat),
            value_bits(order, value, 8 * i as nat) == stream_bits(order, bytes@.take(i as int)),
        decreases count - i,
    {
        let byte = bytes[i];
        proof {
            lemma_stream_bits_byte(order, bytes@, i as int);
            lemma_join_values(order, value, 8 * i as nat, byte as u64, 8);
        }
        value = (value << 8) | (byte as u64);
        i += 1;
    }
    value
}

/// The number that the first `count` bytes of `bytes` stand for, the first
/// byte at the bottom.
fn assemble_little(bytes: &[u8], count: usize) -> (value: u64)
    requires
        count <= 8,
        count <= bytes@.len(),
    ensures
        fits_in(value, 8 * count as nat),
        value_bits(ByteOrder::LittleEndian, value, 8 * count as nat) == stream_bits(
            ByteOrder::LittleEndian,
            bytes@.take(count as int),
        ),
{
    let ghost order = ByteOrder::LittleEndian;
    let mut value: u64 = 0;
    let mut i: usize = 0;
    proof {
        lemma_zero_fits(0);
        assert(value_bits(order, 0, 0) =~= stream_bits(order, bytes@.take(0)));
    }
    while i < count
        invariant
            i <= count <= 8,
            count <= bytes@.len(),
            order == ByteOrder::LittleEndian,
            fits_in(value, 8 * i as nat),
            value_bits(order, value, 8 * i as nat) == stream_bits(order, bytes@.take(i as int)),
        decreases count - i,
    {
        let byte = bytes[i];
        proof {
            lemma_stream_bits_byte(order, bytes@, i as int);
            lemma_join_values(order, value, 8 * i as nat, byte as u64, 8);
        }
        value = value | ((byte as u64) << ((i * 8) as u64));
        i += 1;
    }
    value
}

/// The register of the big-endian fast reader: the oldest bit at the top,
/// zero below the bits held.
struct BigWindow {
    buffer: u64,
    bits_available: usize,
}

impl BigWindow {
    #[verifier::type_invariant]
    spec fn clean(self) -> bool {
        register_clean(ByteOrder::BigEndian, self.buffer, self.bits_available as nat)
    }

    /// The bits held, oldest first.
    closed spec fn bits(&self) -> Seq<bool> {
        register_bits(
            ByteOrder::BigEndian,
            self.buffer,
            if self.bits_available <= 64 {
                self.bits_available as nat
            } else {
                64
            },
        )
    }

    /// One register holds at most 64 bits.
    proof fn lemma_capacity(&self)
        ensures
            self.bits().len() <= 64,
    {
    }

    fn empty() -> (window: Self)
        ensures
            window.bits() == Seq::<bool>::empty(),
    {
        proof {
            lemma_register_is_clean_when_zero(ByteOrder::BigEndian);
        }
        BigWindow { buffer: 0, bits_available: 0 }
    }

    fn available(&self) -> (count: usize)
        ensures
            count == self.bits().len(),
            count <= 64,
    {
        proof {
            use_type_invariant(self);
        }
        self.bits_available
    }

    /// Takes in `count` bytes that `value` stands for, behind the bits held.
    fn absorb(&mut self, value: u64, count: usize)
        requires
            1 <= count <= 8,
            old(self).bits().len() + 8 * count <= 64,
            fits_in(value, 8 * count as nat),
        ensures
            final(self).bits() == old(self).bits() + value_bits(
                ByteOrder::BigEndian,
                value,
                8 * count as nat,
            ),
    {
        proof {
            use_type_invariant(&*self);
            lemma_register_push(
                ByteOrder::BigEndian,
                self.buffer,
                self.bits_available as nat,
                value,
                8 * count as nat,
            );
        }
        let new_bits = count * 8;
        let shift = 64 - self.bits_available - new_bits;
        let buffer = self.buffer | (value << (shift as u64));
        *self = BigWindow { buffer, bits_available: self.bits_available + new_bits };
    }

    /// The number that the first `n` bits held stand for.
    fn front(&self, n: usize) -> (value: u64)
        requires
            1 <= n <= self.bits().len(),
        ensures
            value == bits_value(ByteOrder::BigEndian, self.bits().take(n as int)),
    {
        proof {
            use_type_invariant(self);
            lemma_register_peek(ByteOrder::BigEndian, self.buffer, n as nat);
            assert(register_bits(ByteOrder::BigEndian, self.buffer, n as nat) =~= self.bits().take(
                n as int,
            ));
            lemma_bits_value_of_value_bits(
                ByteOrder::BigEndian,
                register_peek(ByteOrder::BigEndian, self.buffer, n as nat),
                n as nat,
            );
        }
        let value = self.buffer >> ((64 - n) as u64);
        value
    }

    /// Lets go of the first `n` bits held.
    fn advance(&mut self, n: usize)
        requires
            1 <= n <= old(self).bits().len(),
        ensures
            final(self).bits() == old(self).bits().skip(n as int),
    {
        proof {
            use_type_invariant(&*self);
            lemma_register_drop(
                ByteOrder::BigEndian,
                self.buffer,
                self.bits_available as nat,
                n as nat,
            );
        }
        let buffer = if n < 64 {
            self.buffer << (n as u64)
        } else {
            0
        };
        *self = BigWindow { buffer, bits_available: self.bits_available - n };
    }
}

/// A bit reader for streams that put the most significant bit first, built
/// for throughput: it reads bits and nothing else, and fills its register in
/// bursts of up to eight bytes.
pub struct FastBitReaderBig<R: ByteSource> {
    raw: R,
    window: BigWindow,
    scratch: [u8; 8],
}

impl<R: ByteSource> View for FastBitReaderBig<R> {
    type V = ReaderState;

    closed spec fn view(&self) -> ReaderState {
        ReaderState {
            order: ByteOrder::BigEndian,
            buffered: self.window.bits(),
            remaining: self.raw.remaining(),
        }
    }
}

impl<R: ByteSource> FastBitReaderBig<R> {
    /// A fast reader over `raw`.
    pub fn new(raw: R) -> (reader: Self)
        ensures
            reader@ == ReaderState::fresh(ByteOrder::BigEndian, raw.remaining()),
    {
        FastBitReaderBig { raw, window: BigWindow::empty(), scratch: [0u8; 8] }
    }

    /// The source that the reader takes its bytes from.
    pub fn get_ref(&self) -> (raw: &R)
        ensures
            raw.remaining() == self@.remaining,
    {
        &self.raw
    }

    /// The source that the reader takes its bytes from, open to change. What
    /// the source is left with is what the reader goes on from; the bits held
    /// in the register stay.
    pub fn get_mut(&mut self) -> (raw: &mut R)
        ensures
            raw.remaining() == old(self)@.remaining,
            final(self)@ == (ReaderState {
                order: old(self)@.order,
                buffered: old(self)@.buffered,
                remaining: final(raw).remaining(),
            }),
    {
        &mut self.raw
    }

    /// Pulls `needed` bytes from the source in one burst and puts them into
    /// the register in one pass. Where the source has fewer, those go in.
    fn fill_burst(&mut self, needed: usize) -> (filled: Result<(), BitReadWriteError>)
        requires
            1 <= needed <= 8,
            old(self)@.buffered.len() + 8 * needed <= 64,
        ensures
            final(self)@ == old(self)@.pull(needed as nat),
            filled == if needed <= old(self)@.remaining.len() {
                Ok::<(), BitReadWriteError>(())
            } else {
                Err::<(), BitReadWriteError>(BitReadWriteError::UnexpectedEof)
            },
    {
        let ghost start = self@;
        let (slice, _) = self.scratch.split_at_mut(needed);
        let got = self.raw.read(slice);
        if got > 0 {
            let value = assemble_big(slice, got);
            proof {
                assert(slice@.take(got as int) =~= start.remaining.take(got as int));
            }
            self.window.absorb(value, got);
        } else {
            proof {
                assert(start.remaining.skip(0) =~= start.remaining);
            }
        }
        if got < needed {
            Err(BitReadWriteError::UnexpectedEof)
        } else {
            Ok(())
        }
    }

    /// Reads `n` bits where the register, filled to its capacity, holds
    /// fewer: the bits held come first, then the front of one more byte.
    fn read_across_capacity(&mut self, n: usize) -> (bits: Result<u64, BitReadWriteError>)
        requires
            valid_width(n),
            56 < old(self)@.buffered.len() < n,
        ensures
            final(self)@.order == old(self)@.order,
            old(self)@.remaining.len() == 0 ==> {
                &&& bits == Err::<u64, BitReadWriteError>(BitReadWriteError::UnexpectedEof)
                &&& final(self)@ == old(self)@
            },
            old(self)@.remaining.len() > 0 ==> {
                let byte_bits = value_bits(old(self)@.order, old(self)@.remaining[0] as u64, 8);
                let tail_len = n - old(self)@.buffered.len();
                &&& bits == Ok::<u64, BitReadWriteError>(
                    bits_value(old(self)@.order, old(self)@.buffered + byte_bits.take(tail_len))
                        as u64,
                )
                &&& final(self)@.buffered == byte_bits.skip(tail_len)
                &&& final(self)@.remaining == old(self)@.remaining.skip(1)
            },
    {
        let held = self.window.available();
        let head = self.window.front(held);
        match next_byte(&mut self.raw) {
            None => Err(BitReadWriteError::UnexpectedEof),
            Some(byte) => {
                let ghost order = ByteOrder::BigEndian;
                let tail_len = n - held;
                self.window.advance(held);
                proof {
                    lemma_stream_bits_byte(order, old(self)@.remaining, 0);
                }
                self.window.absorb(byte as u64, 1);
                let tail = self.window.front(tail_len);
                self.window.advance(tail_len);
                let value = (head << (tail_len as u64)) | tail;
                proof {
                    let head_bits = old(self)@.buffered;
                    let byte_bits = value_bits(order, byte as u64, 8);
                    assert(head_bits.take(held as int) =~= head_bits);
                    lemma_joined_read(order, head_bits, byte_bits.take(tail_len as int), head, tail);
                }
                Ok(value)
            },
        }
    }

    /// Reads the next `n` bits, 1 to 64 of them, and returns the number that
    /// they stand for, the first bit read being the most significant. The
    /// result and the state left behind are those of the general reader.
    ///
    /// Where the source ends before the bits are there, the read fails and
    /// consumes nothing: the bytes that it pulled stay in the register.
    pub fn read_bits_fast(&mut self, n: usize) -> (bits: Result<u64, BitReadWriteError>)
        ensures
            bits == old(self)@.read_outcome(n),
            final(self)@ == old(self)@.after_read(n),
            final(self)@.valid(),
    {
        proof {
            self.window.lemma_capacity();
        }
        if n == 0 || n > 64 {
            return Err(BitReadWriteError::InvalidBitCount(n));
        }
        let available = self.window.available();
        let mut needed_bytes: usize = 0;
        if available < n {
            let remaining_bits = n - available;
            let max_bytes = (64 - available) / 8;
            needed_bytes = (remaining_bits + 7) / 8;
            if needed_bytes > max_bytes {
                needed_bytes = max_bytes;
            }
        }
        if needed_bytes > 0 {
            match self.fill_burst(needed_bytes) {
                Err(e) => {
                    proof {
                        self.window.lemma_capacity();
                    }
                    return Err(e);
                },
                Ok(()) => {},
            }
        } else {
            proof {
                lemma_pull_nothing(old(self)@);
            }
        }
        if self.window.available() >= n {
            proof {
                lemma_read_after_full_fill(old(self)@, n);
            }
            let value = self.window.front(n);
            self.window.advance(n);
            proof {
                self.window.lemma_capacity();
            }
            Ok(value)
        } else {
            proof {
                lemma_read_after_tight_fill(old(self)@, n);
            }
            let bits = self.read_across_capacity(n);
            proof {
                self.window.lemma_capacity();
            }
            bits
        }
    }
}

/// The register of the little-endian fast reader: the oldest bit at the
/// bottom, zero above the bits held.
struct LittleWindow {
    buffer: u64,
    bits_available: usize,
}

impl LittleWindow {
    #[verifier::type_invariant]
    spec fn clean(self) -> bool {
        register_clean(ByteOrder::LittleEndian, self.buffer, self.bits_available as nat)
    }

    /// The bits held, oldest first.
    closed spec fn bits(&self) -> Seq<bool> {
        register_bits(
            ByteOrder::LittleEndian,
            self.buffer,
            if self.bits_available <= 64 {
                self.bits_available as nat
            } else {
                64
            },
        )
    }

    /// One register holds at most 64 bits.
    proof fn lemma_capacity(&self)
        ensures
            self.bits().len() <= 64,
    {
    }

    fn empty() -> (window: Self)
        ensures
            window.bits() == Seq::<bool>::empty(),
    {
        proof {
            lemma_register_is_clean_when_zero(ByteOrder::LittleEndian);
        }
        LittleWindow { buffer: 0, bits_available: 0 }
    }

    fn available(&self) -> (count: usize)
        ensures
            count == self.bits().len(),
            count <= 64,
    {
        proof {
            use_type_invariant(self);
        }
        self.bits_available
    }

    /// Takes in `count` bytes that `value` stands for, behind the bits held.
    fn absorb(&mut self, value: u64, count: usize)
        requires
            1 <= count <= 8,
            old(self).bits().len() + 8 * count <= 64,
            fits_in(value, 8 * count as nat),
        ensures
            final(self).bits() == old(self).bits() + value_bits(
                ByteOrder::LittleEndian,
                value,
                8 * count as nat,
            ),
    {
        proof {
            use_type_invariant(&*self);
            lemma_register_push(
                ByteOrder::LittleEndian,
                self.buffer,
                self.bits_available as nat,
                value,
                8 * count as nat,
            );
        }
        let new_bits = count * 8;
        let buffer = self.buffer | (value << (self.bits_available as u64));
        *self = LittleWindow { buffer, bits_available: self.bits_available + new_bits };
    }

    /// The number that the first `n` bits held stand for.
    fn front(&self, n: usize) -> (value: u64)
        requires
            1 <= n <= self.bits().len(),
        ensures
            value == bits_value(ByteOrder::LittleEndian, self.bits().take(n as int)),
    {
        proof {
            use_type_invariant(self);
            lemma_register_peek(ByteOrder::LittleEndian, self.buffer, n as nat);
            assert(register_bits(ByteOrder::LittleEndian, self.buffer, n as nat) =~= self.bits().take(
                n as int,
            ));
            lemma_bits_value_of_value_bits(
                ByteOrder::LittleEndian,
                register_peek(ByteOrder::LittleEndian, self.buffer, n as nat),
                n as nat,
            );
        }
        let value = keep_low_bits(self.buffer, n);
        value
    }

    /// Lets go of the first `n` bits held.
    fn advance(&mut self, n: usize)
        requires
            1 <= n <= old(self).bits().len(),
        ensures
            final(self).bits() == old(self).bits().skip(n as int),
    {
        proof {
            use_type_invariant(&*self);
            lemma_register_drop(
                ByteOrder::LittleEndian,
                self.buffer,
                self.bits_available as nat,
                n as nat,
            );
        }
        let buffer = if n < 64 {
            self.buffer >> (n as u64)
        } else {
            0
        };
        *self = LittleWindow { buffer, bits_available: self.bits_available - n };
    }
}

/// A bit reader for streams that put the least significant bit first, built
/// for throughput: it reads bits and nothing else, and fills its register in
/// bursts of up to eight bytes.
pub struct FastBitReaderLittle<R: ByteSource> {
    raw: R,
    window: LittleWindow,
    scratch: [u8; 8],
}

impl<R: ByteSource> View for FastBitReaderLittle<R> {
    type V = ReaderState;

    closed spec fn view(&self) -> ReaderState {
        ReaderState {
            order: ByteOrder::LittleEndian,
            buffered: self.window.bits(),
            remaining: self.raw.remaining(),
        }
    }
}

impl<R: ByteSource> FastBitReaderLittle<R> {
    /// A fast reader over `raw`.
    pub fn new(raw: R) -> (reader: Self)
        ensures
            reader@ == ReaderState::fresh(ByteOrder::LittleEndian, raw.remaining()),
    {
        FastBitReaderLittle { raw, window: LittleWindow::empty(), scratch: [0u8; 8] }
    }

    /// The source that the reader takes its bytes from.
    pub fn get_ref(&self) -> (raw: &R)
        ensures
            raw.remaining() == self@.remaining,
    {
        &self.raw
    }

    /// The source that the reader takes its bytes from, open to change. What
    /// the source is left with is what the reader goes on from; the bits held
    /// in the register stay.
    pub fn get_mut(&mut self) -> (raw: &mut R)
        ensures
            raw.remaining() == old(self)@.remaining,
            final(self)@ == (ReaderState {
                order: old(self)@.order,
                buffered: old(self)@.buffered,
                remaining: final(raw).remaining(),
            }),
    {
        &mut self.raw
    }

    /// Pulls `needed` bytes from the source in one burst and puts them into
    /// the register in one pass. Where the source has fewer, those go in.
    fn fill_burst(&mut self, needed: usize) -> (filled: Result<(), BitReadWriteError>)
        requires
            1 <= needed <= 8,
            old(self)@.buffered.len() + 8 * needed <= 64,
        ensures
            final(self)@ == old(self)@.pull(needed as nat),
            filled == if needed <= old(self)@.remaining.len() {
                Ok::<(), BitReadWriteError>(())
            } else {
                Err::<(), BitReadWriteError>(BitReadWriteError::UnexpectedEof)
            },
    {
        let ghost start = self@;
        let (slice, _) = self.scratch.split_at_mut(needed);
        let got = self.raw.read(slice);
        if got > 0 {
            let value = assemble_little(slice, got);
            proof {
                assert(slice@.take(got as int) =~= start.remaining.take(got as int));
            }
            self.window.absorb(value, got);
        } else {
            proof {
                assert(start.remaining.skip(0) =~= start.remaining);
            }
        }
        if got < needed {
            Err(BitReadWriteError::UnexpectedEof)
        } else {
            Ok(())
        }
    }

    /// Reads `n` bits where the register, filled to its capacity, holds
    /// fewer: the bits held come first, then the front of one more byte.
    fn read_across_capacity(&mut self, n: usize) -> (bits: Result<u64, BitReadWriteError>)
        requires
            valid_width(n),
            56 < old(self)@.buffered.len() < n,
        ensures
            final(self)@.order == old(self)@.order,
            old(self)@.remaining.len() == 0 ==> {
                &&& bits == Err::<u64, BitReadWriteError>(BitReadWriteError::UnexpectedEof)
                &&& final(self)@ == old(self)@
            },
            old(self)@.remaining.len() > 0 ==> {
                let byte_bits = value_bits(old(self)@.order, old(self)@.remaining[0] as u64, 8);
                let tail_len = n - old(self)@.buffered.len();
                &&& bits == Ok::<u64, BitReadWriteError>(
                    bits_value(old(self)@.order, old(self)@.buffered + byte_bits.take(tail_len))
                        as u64,
                )
                &&& final(self)@.buffered == byte_bits.skip(tail_len)
                &&& final(self)@.remaining == old(self)@.remaining.skip(1)
            },
    {
        let held = self.window.available();
        let head = self.window.front(held);
        match next_byte(&mut self.raw) {
            None => Err(BitReadWriteError::UnexpectedEof),
            Some(byte) => {
                let ghost order = ByteOrder::LittleEndian;
                let tail_len = n - held;
                self.window.advance(held);
                proof {
                    lemma_stream_bits_byte(order, old(self)@.remaining, 0);
                }
                self.window.absorb(byte as u64, 1);
                let tail = self.window.front(tail_len);
                self.window.advance(tail_len);
                let value = head | (tail << (held as u64));
                proof {
                    let head_bits = old(self)@.buffered;
                    let byte_bits = value_bits(order, byte as u64, 8);
                    assert(head_bits.take(held as int) =~= head_bits);
                    lemma_joined_read(order, head_bits, byte_bits.take(tail_len as int), head, tail);
                }
                Ok(value)
            },
        }
    }

    /// Reads the next `n` bits, 1 to 64 of them, and returns the number that
    /// they stand for, the first bit read being the least significant. The
    /// result and the state left behind are those of the general reader.
    ///
    /// Where the source ends before the bits are there, the read fails and
    /// consumes nothing: the bytes that it pulled stay in the register.
    pub fn read_bits_fast(&mut self, n: usize) -> (bits: Result<u64, BitReadWriteError>)
        ensures
            bits == old(self)@.read_outcome(n),
            final(self)@ == old(self)@.after_read(n),
            final(self)@.valid(),
    {
        proof {
            self.window.lemma_capacity();
        }
        if n == 0 || n > 64 {
            return Err(BitReadWriteError::InvalidBitCount(n));
        }
        let available = self.window.available();
        let mut needed_bytes: usize = 0;
        if available < n {
            let remaining_bits = n - available;
            let max_bytes = (64 - available) / 8;
            needed_bytes = (remaining_bits + 7) / 8;
            if needed_bytes > max_bytes {
                needed_bytes = max_bytes;
            }
        }
        if needed_bytes > 0 {
            match self.fill_burst(needed_bytes) {
                Err(e) => {
                    proof {
                        self.window.lemma_capacity();
                    }
                    return Err(e);
                },
                Ok(()) => {},
            }
        } else {
            proof {
                lemma_pull_nothing(old(self)@);
            }
        }
        if self.window.available() >= n {
            proof {
                lemma_read_after_full_fill(old(self)@, n);
            }
            let value = self.window.front(n);
            self.window.advance(n);
            proof {
                self.window.lemma_capacity();
            }
            Ok(value)
        } else {
            proof {
                lemma_read_after_tight_fill(old(self)@, n);
            }
            let bits = self.read_across_capacity(n);
            proof {
                self.window.lemma_capacity();
            }
            bits
        }
    }
}

} // verus!
