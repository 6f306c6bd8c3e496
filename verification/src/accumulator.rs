//! The bit accumulator: a 64-bit register and the count of bits it holds,
//! serving as a first-in, first-out queue of bits for readers and writers.

use crate::bits::{bits_value, fits_in, lemma_bits_value_of_value_bits, padded_take, value_bits};
use crate::byte_order::ByteOrder;
use crate::register::{
    lemma_register_drop, lemma_register_is_clean_when_zero, lemma_register_padding,
    lemma_register_peek, lemma_register_push, register_bits, register_clean, register_peek,
};
use vstd::prelude::*;

verus! {

/// A queue of at most 64 bits held in one machine word.
///
/// Under `BigEndian` the oldest bit sits at the top of the register and new
/// bits join below the occupied part; under `LittleEndian` the oldest bit sits
/// at the bottom and new bits join above. Positions that hold no bit are zero.
pub(crate) struct BitAccumulator {
    order: ByteOrder,
    register: u64,
    occupancy: usize,
}

impl BitAccumulator {
    #[verifier::type_invariant]
    spec fn clean(self) -> bool {
        register_clean(self.order, self.register, self.occupancy as nat)
    }

    /// The bits held, oldest first.
    pub(crate) closed spec fn bits(&self) -> Seq<bool> {
        register_bits(
            self.order,
            self.register,
            if self.occupancy <= 64 {
                self.occupancy as nat
            } else {
                64
            },
        )
    }

    /// One register holds at most 64 bits.
    pub(crate) proof fn lemma_capacity(&self)
        ensures
            self.bits().len() <= 64,
    {
    }

    /// The bit order that this accumulator packs by.
    pub(crate) closed spec fn order(&self) -> ByteOrder {
        self.order
    }

    /// An empty accumulator for `order`.
    pub(crate) fn new(order: ByteOrder) -> (acc: Self)
        ensures
            acc.bits() == Seq::<bool>::empty(),
            acc.order() == order,
    {
        proof {
            lemma_register_is_clean_when_zero(order);
        }
        BitAccumulator { order, register: 0, occupancy: 0 }
    }

    /// The bit order that this accumulator packs by.
    pub(crate) fn byte_order(&self) -> (order: ByteOrder)
        ensures
            order == self.order(),
    {
        self.order
    }

    /// The number of bits held.
    pub(crate) fn len(&self) -> (n: usize)
        ensures
            n == self.bits().len(),
            n <= 64,
    {
        proof {
            use_type_invariant(self);
        }
        self.occupancy
    }

    /// Appends the low `n` bits of `value`, which has no bit above them.
    pub(crate) fn push(&mut self, value: u64, n: usize)
        requires
            1 <= n,
            old(self).bits().len() + n <= 64,
            fits_in(value, n as nat),
        ensures
            final(self).bits() == old(self).bits() + value_bits(old(self).order(), value, n as nat),
            final(self).order() == old(self).order(),
    {
        proof {
            use_type_invariant(&*self);
            lemma_register_push(self.order, self.register, self.occupancy as nat, value, n as nat);
        }
        let register = match self.order {
            ByteOrder::BigEndian => self.register | (value << ((64 - self.occupancy - n) as u64)),
            ByteOrder::LittleEndian => self.register | (value << (self.occupancy as u64)),
        };
        *self = BitAccumulator { order: self.order, register, occupancy: self.occupancy + n };
    }

    /// The number that the first `n` bits stand for, zero bits standing in
    /// where fewer than `n` are held. Nothing is removed.
    pub(crate) fn peek(&self, n: usize) -> (value: u64)
        requires
            1 <= n <= 64,
        ensures
            value == bits_value(self.order(), padded_take(self.bits(), n as nat)),
    {
        proof {
            use_type_invariant(self);
            lemma_register_peek(self.order, self.register, n as nat);
            if n <= self.occupancy {
                assert(register_bits(self.order, self.register, n as nat) =~= self.bits().take(
                    n as int,
                ));
            } else {
                lemma_register_padding(
                    self.order,
                    self.register,
                    self.occupancy as nat,
                    n as nat,
                );
            }
            lemma_bits_value_of_value_bits(
                self.order,
                register_peek(self.order, self.register, n as nat),
                n as nat,
            );
        }
        let value = match self.order {
            ByteOrder::BigEndian => self.register >> ((64 - n) as u64),
            ByteOrder::LittleEndian => {
                if n == 64 {
                    self.register
                } else {
                    let shift = n as u64;
                    assert((1u64 << shift) >= 1) by (bit_vector)
                        requires
                            shift < 64,
                    ;
                    self.register & ((1u64 << shift) - 1)
                }
            },
        };
        value
    }

    /// Removes the first `n` bits and returns the number that they stand for.
    pub(crate) fn take(&mut self, n: usize) -> (value: u64)
        requires
            1 <= n <= old(self).bits().len(),
        ensures
            value == bits_value(old(self).order(), old(self).bits().take(n as int)),
            final(self).bits() == old(self).bits().skip(n as int),
            final(self).order() == old(self).order(),
    {
        proof {
            use_type_invariant(&*self);
        }
        let value = self.peek(n);
        proof {
            lemma_register_drop(self.order, self.register, self.occupancy as nat, n as nat);
        }
        let register = if n == 64 {
            0
        } else {
            match self.order {
                ByteOrder::BigEndian => self.register << (n as u64),
                ByteOrder::LittleEndian => self.register >> (n as u64),
            }
        };
        *self = BitAccumulator { order: self.order, register, occupancy: self.occupancy - n };
        value
    }
}

} // verus!
