//! A 64-bit register as a holder of bits: where the bits sit under either
//! bit order, and what shifting and masking do to them.

use crate::bits::{
    bit_of, fits_in, lemma_bit_low_mask, lemma_bit_or, lemma_bit_shl, lemma_bit_shr,
    lemma_bit_zero, value_bits, zero_bits,
};
use crate::byte_order::ByteOrder;
use vstd::prelude::*;

verus! {

/// The first `occupancy` bits that `register` holds, oldest first. Under
/// `BigEndian` the oldest bit is bit 63, under `LittleEndian` bit 0.
pub open spec fn register_bits(order: ByteOrder, register: u64, occupancy: nat) -> Seq<bool>
    recommends
        occupancy <= 64,
{
    Seq::new(
        occupancy,
        |i: int|
            match order {
                ByteOrder::BigEndian => bit_of(register, (63 - i) as u64),
                ByteOrder::LittleEndian => bit_of(register, i as u64),
            },
    )
}

/// Whether `register` is a valid holder of `occupancy` bits: at most 64, and
/// every position beyond them is zero.
pub open spec fn register_clean(order: ByteOrder, register: u64, occupancy: nat) -> bool {
    &&& occupancy <= 64
    &&& forall|i: int| occupancy <= i < 64 ==> !#[trigger] register_bits(order, register, 64)[i]
}

/// The register after `n` more bits, the low bits of `value`, have joined the
/// `occupancy` bits that it holds.
pub open spec fn register_push(
    order: ByteOrder,
    register: u64,
    occupancy: nat,
    value: u64,
    n: nat,
) -> u64
    recommends
        1 <= n,
        occupancy + n <= 64,
{
    match order {
        ByteOrder::BigEndian => register | (value << ((64 - occupancy - n) as u64)),
        ByteOrder::LittleEndian => register | (value << (occupancy as u64)),
    }
}

/// The number that the first `n` positions of the register stand for.
pub open spec fn register_peek(order: ByteOrder, register: u64, n: nat) -> u64
    recommends
        1 <= n <= 64,
{
    match order {
        ByteOrder::BigEndian => register >> ((64 - n) as u64),
        ByteOrder::LittleEndian => if n == 64 {
            register
        } else {
            register & (((1u64 << (n as u64)) - 1) as u64)
        },
    }
}

/// The register after its first `n` positions have left it.
pub open spec fn register_drop(order: ByteOrder, register: u64, n: nat) -> u64
    recommends
        1 <= n <= 64,
{
    if n == 64 {
        0
    } else {
        match order {
            ByteOrder::BigEndian => register << (n as u64),
            ByteOrder::LittleEndian => register >> (n as u64),
        }
    }
}

/// A register of zero holds no bit and is clean.
pub proof fn lemma_register_is_clean_when_zero(order: ByteOrder)
    ensures
        register_clean(order, 0, 0),
{
    assert forall|i: int| 0 <= i < 64 implies !#[trigger] register_bits(order, 0, 64)[i] by {
        lemma_bit_zero(i as u64);
        lemma_bit_zero((63 - i) as u64);
    }
}

/// Pushing appends the bits of the value behind the bits already held.
pub proof fn lemma_register_push(order: ByteOrder, register: u64, occupancy: nat, value: u64, n: nat)
    requires
        register_clean(order, register, occupancy),
        1 <= n,
        occupancy + n <= 64,
        fits_in(value, n),
    ensures
        register_clean(order, register_push(order, register, occupancy, value, n), occupancy + n),
        register_bits(order, register_push(order, register, occupancy, value, n), occupancy + n)
            == register_bits(order, register, occupancy) + value_bits(order, value, n),
{
    let pushed = register_push(order, register, occupancy, value, n);
    let shift: u64 = match order {
        ByteOrder::BigEndian => (64 - occupancy - n) as u64,
        ByteOrder::LittleEndian => occupancy as u64,
    };
    assert forall|p: u64| p < 64 implies bit_of(pushed, p) == (bit_of(register, p) || (p >= shift
        && bit_of(value, (p - shift) as u64))) by {
        lemma_bit_or(register, value << shift, p);
        lemma_bit_shl(value, shift, p);
    }
    let full = register_bits(order, register, 64);
    assert forall|i: int| occupancy + n <= i < 64 implies !#[trigger] register_bits(
        order,
        pushed,
        64,
    )[i] by {
        assert(!full[i]);
    }
    let joined = register_bits(order, register, occupancy) + value_bits(order, value, n);
    assert forall|i: int| 0 <= i < occupancy + n implies #[trigger] register_bits(
        order,
        pushed,
        occupancy + n,
    )[i] == joined[i] by {
        if i >= occupancy {
            assert(!full[i]);
        }
    }
}

/// Peeking reads the number that the first `n` positions stand for and no more.
pub proof fn lemma_register_peek(order: ByteOrder, register: u64, n: nat)
    requires
        1 <= n <= 64,
    ensures
        fits_in(register_peek(order, register, n), n),
        value_bits(order, register_peek(order, register, n), n) == register_bits(
            order,
            register,
            n,
        ),
{
    let v = register_peek(order, register, n);
    assert forall|p: u64| p < 64 implies bit_of(v, p) == (p < n && match order {
        ByteOrder::BigEndian => bit_of(register, (p + 64 - n) as u64),
        ByteOrder::LittleEndian => bit_of(register, p),
    }) by {
        match order {
            ByteOrder::BigEndian => {
                lemma_bit_shr(register, (64 - n) as u64, p);
            },
            ByteOrder::LittleEndian => {
                if n < 64 {
                    lemma_bit_low_mask(register, n as u64, p);
                }
            },
        }
    }
}

/// Dropping removes the first `n` bits and keeps the rest in order.
pub proof fn lemma_register_drop(order: ByteOrder, register: u64, occupancy: nat, n: nat)
    requires
        register_clean(order, register, occupancy),
        1 <= n <= occupancy,
    ensures
        register_clean(order, register_drop(order, register, n), (occupancy - n) as nat),
        register_bits(order, register_drop(order, register, n), (occupancy - n) as nat)
            == register_bits(order, register, occupancy).skip(n as int),
{
    let dropped = register_drop(order, register, n);
    let full = register_bits(order, register, 64);
    assert forall|p: u64| p < 64 implies bit_of(dropped, p) == match order {
        ByteOrder::BigEndian => p >= n && bit_of(register, (p - n) as u64),
        ByteOrder::LittleEndian => p + n < 64 && bit_of(register, (p + n) as u64),
    } by {
        if n == 64 {
            lemma_bit_zero(p);
        } else {
            match order {
                ByteOrder::BigEndian => {
                    lemma_bit_shl(register, n as u64, p);
                },
                ByteOrder::LittleEndian => {
                    lemma_bit_shr(register, n as u64, p);
                },
            }
        }
    }
    assert forall|i: int| occupancy - n <= i < 64 implies !#[trigger] register_bits(
        order,
        dropped,
        64,
    )[i] by {
        if i + n < 64 {
            assert(!full[i + n]);
        }
    }
}

/// What a clean register shows beyond its occupancy is zero bits.
pub proof fn lemma_register_padding(order: ByteOrder, register: u64, occupancy: nat, n: nat)
    requires
        register_clean(order, register, occupancy),
        occupancy <= n <= 64,
    ensures
        register_bits(order, register, n) == register_bits(order, register, occupancy)
            + zero_bits((n - occupancy) as nat),
{
    let full = register_bits(order, register, 64);
    let padded = register_bits(order, register, occupancy) + zero_bits((n - occupancy) as nat);
    assert forall|i: int| 0 <= i < n implies #[trigger] register_bits(order, register, n)[i]
        == padded[i] by {
        if i >= occupancy {
            assert(!full[i]);
        }
    }
}

} // verus!
