//! Bits and the numbers that they stand for: single bits of a machine word,
//! runs of bits in either bit order, and how runs are joined and split.

use crate::byte_order::ByteOrder;
use vstd::prelude::*;

verus! {

/// Bit `i` of `x`, where bit 0 is the least significant.
pub open spec fn bit_of(x: u64, i: u64) -> bool {
    (x >> i) & 1 == 1
}

/// The weight that a bit adds to a number at position 0.
pub open spec fn bit_weight(b: bool) -> nat {
    if b {
        1
    } else {
        0
    }
}

/// Whether `value` has no bit set at position `n` or above.
pub open spec fn fits_in(value: u64, n: nat) -> bool {
    forall|i: u64| n <= i < 64 ==> !#[trigger] bit_of(value, i)
}

/// The low `n` bits of `value`, the rest cleared.
pub open spec fn low_bits(value: u64, n: nat) -> u64 {
    if n >= 64 {
        value
    } else {
        value & (((1u64 << (n as u64)) - 1) as u64)
    }
}

/// The low `n` bits of `value` in the order in which they travel in a stream:
/// most significant first under `BigEndian`, least significant first under
/// `LittleEndian`.
pub open spec fn value_bits(order: ByteOrder, value: u64, n: nat) -> Seq<bool>
    recommends
        n <= 64,
{
    Seq::new(
        n,
        |i: int|
            match order {
                ByteOrder::BigEndian => bit_of(value, (n - 1 - i) as u64),
                ByteOrder::LittleEndian => bit_of(value, i as u64),
            },
    )
}

/// The number that a run of bits stands for: under `BigEndian` the first bit is
/// the most significant, under `LittleEndian` the least significant.
pub open spec fn bits_value(order: ByteOrder, bits: Seq<bool>) -> nat
    decreases bits.len(),
{
    if bits.len() == 0 {
        0
    } else {
        match order {
            ByteOrder::BigEndian => 2 * bits_value(order, bits.drop_last()) + bit_weight(
                bits.last(),
            ),
            ByteOrder::LittleEndian => bit_weight(bits[0]) + 2 * bits_value(
                order,
                bits.drop_first(),
            ),
        }
    }
}

/// A run of `n` zero bits.
pub open spec fn zero_bits(n: nat) -> Seq<bool> {
    Seq::new(n, |i: int| false)
}

/// The first `n` of `bits`, followed by zero bits where `bits` has fewer.
pub open spec fn padded_take(bits: Seq<bool>, n: nat) -> Seq<bool> {
    if n <= bits.len() {
        bits.take(n as int)
    } else {
        bits + zero_bits((n - bits.len()) as nat)
    }
}

/// Computes the low `n` bits of `value`, the rest cleared.
pub fn keep_low_bits(value: u64, n: usize) -> (masked: u64)
    ensures
        masked == low_bits(value, n as nat),
{
    if n >= 64 {
        value
    } else {
        let shift = n as u64;
        assert((1u64 << shift) >= 1) by (bit_vector)
            requires
                shift < 64,
        ;
        value & ((1u64 << shift) - 1)
    }
}

/// A bit of `a | b` is set where it is set in `a` or in `b`.
pub proof fn lemma_bit_or(a: u64, b: u64, i: u64)
    by (bit_vector)
    requires
        i < 64,
    ensures
        bit_of(a | b, i) == (bit_of(a, i) || bit_of(b, i)),
{
}

/// A left shift by `s` moves every bit up by `s` positions and clears the
/// `s` lowest.
pub proof fn lemma_bit_shl(v: u64, s: u64, i: u64)
    by (bit_vector)
    requires
        s < 64,
        i < 64,
    ensures
        bit_of(v << s, i) == (i >= s && bit_of(v, (i - s) as u64)),
{
}

/// A right shift by `s` moves every bit down by `s` positions and clears the
/// `s` highest.
pub proof fn lemma_bit_shr(v: u64, s: u64, i: u64)
    by (bit_vector)
    requires
        s < 64,
        i < 64,
    ensures
        bit_of(v >> s, i) == (i + s < 64 && bit_of(v, (i + s) as u64)),
{
}

/// Masking with `n` ones at the bottom keeps the `n` lowest bits and clears
/// the rest.
pub proof fn lemma_bit_low_mask(v: u64, n: u64, i: u64)
    by (bit_vector)
    requires
        n < 64,
        i < 64,
    ensures
        bit_of(v & (((1u64 << n) - 1) as u64), i) == (i < n && bit_of(v, i)),
{
}

/// Zero has no bit set.
pub proof fn lemma_bit_zero(i: u64)
    by (bit_vector)
    requires
        i < 64,
    ensures
        !bit_of(0, i),
{
}

/// A byte has no bit at position 8 or above.
pub proof fn lemma_bit_byte(b: u8, i: u64)
    by (bit_vector)
    requires
        8 <= i < 64,
    ensures
        !bit_of(b as u64, i),
{
}

/// The bits of a number built as twice another plus one bit: the bit at the
/// bottom, the other number's bits above it.
pub proof fn lemma_bit_double(half: u64, low: u64, value: u64, i: u64)
    by (bit_vector)
    requires
        half <= 0x7fff_ffff_ffff_ffff,
        low <= 1,
        value == 2 * half + low,
        i < 64,
    ensures
        bit_of(value, i) == (if i == 0 {
            low == 1
        } else {
            bit_of(half, (i - 1) as u64)
        }),
{
}

/// Zero has no bit set at all.
pub proof fn lemma_zero_fits(n: nat)
    ensures
        fits_in(0, n),
{
    assert forall|i: u64| n <= i < 64 implies !#[trigger] bit_of(0, i) by {
        lemma_bit_zero(i);
    }
}

/// Masking a value to its low `n` bits keeps those bits and clears the others.
pub proof fn lemma_low_bits(order: ByteOrder, value: u64, n: nat)
    requires
        n <= 64,
    ensures
        fits_in(low_bits(value, n), n),
        value_bits(order, low_bits(value, n), n) == value_bits(order, value, n),
{
    let masked = low_bits(value, n);
    assert forall|p: u64| p < 64 implies bit_of(masked, p) == (p < n && bit_of(value, p)) by {
        if n < 64 {
            lemma_bit_low_mask(value, n as u64, p);
        }
    }
}

/// A value with no bit at position `k` or above is below two to the `k`.
pub proof fn lemma_fits_in_bound(value: u64, k: nat)
    requires
        fits_in(value, k),
        k <= 63,
    ensures
        value >> (k as u64) == 0,
    decreases 63 - k,
{
    let s = k as u64;
    assert(!bit_of(value, s));
    if k == 63 {
        assert(value >> 63 == 0) by (bit_vector)
            requires
                (value >> 63) & 1 != 1,
        ;
    } else {
        lemma_fits_in_bound(value, k + 1);
        let t = (k + 1) as u64;
        assert(value >> s == 0) by (bit_vector)
            requires
                s < 63,
                t == s + 1,
                value >> t == 0,
                (value >> s) & 1 != 1,
        ;
    }
}

/// A value with no bit at position 63 is below two to the 63.
pub proof fn lemma_fits_in_63(value: u64)
    requires
        fits_in(value, 63),
    ensures
        value <= 0x7fff_ffff_ffff_ffff,
{
    lemma_fits_in_bound(value, 63);
    assert(value <= 0x7fff_ffff_ffff_ffff) by (bit_vector)
        requires
            value >> 63 == 0,
    ;
}

/// A value that fits in eight bits is a byte.
pub proof fn lemma_fits_in_byte(value: u64)
    requires
        fits_in(value, 8),
    ensures
        value <= 255,
{
    lemma_fits_in_bound(value, 8);
    assert(value <= 255) by (bit_vector)
        requires
            value >> 8 == 0,
    ;
}

/// Reading back the bits of a value that fits in `n` bits gives the value.
pub proof fn lemma_bits_value_of_value_bits(order: ByteOrder, value: u64, n: nat)
    requires
        n <= 64,
        fits_in(value, n),
    ensures
        bits_value(order, value_bits(order, value, n)) == value,
    decreases n,
{
    let bits = value_bits(order, value, n);
    if n == 0 {
        lemma_fits_in_bound(value, 0);
        assert(value == 0) by (bit_vector)
            requires
                value >> 0 == 0,
        ;
    } else {
        let half = value >> 1;
        assert forall|p: u64| p < 64 implies bit_of(half, p) == (p + 1 < 64 && bit_of(
            value,
            (p + 1) as u64,
        )) by {
            lemma_bit_shr(value, 1, p);
        }
        lemma_bits_value_of_value_bits(order, half, (n - 1) as nat);
        match order {
            ByteOrder::BigEndian => {
                assert(bits.drop_last() =~= value_bits(order, half, (n - 1) as nat));
            },
            ByteOrder::LittleEndian => {
                assert(bits.drop_first() =~= value_bits(order, half, (n - 1) as nat));
            },
        }
        assert(value == 2 * half + (if (value >> 0) & 1 == 1 {
            1int
        } else {
            0int
        })) by (bit_vector)
            requires
                half == value >> 1,
        ;
    }
}

/// The number that at most 64 bits stand for fits in a machine word, has no
/// bit beyond their count, and spells out as those bits again.
pub proof fn lemma_value_bits_of_bits_value(order: ByteOrder, bits: Seq<bool>)
    requires
        bits.len() <= 64,
    ensures
        bits_value(order, bits) <= u64::MAX,
        fits_in(bits_value(order, bits) as u64, bits.len()),
        value_bits(order, bits_value(order, bits) as u64, bits.len()) == bits,
    decreases bits.len(),
{
    let n = bits.len();
    if n == 0 {
        assert forall|i: u64| i < 64 implies !bit_of(0, i) by {
            lemma_bit_zero(i);
        }
    } else {
        let rest = match order {
            ByteOrder::BigEndian => bits.drop_last(),
            ByteOrder::LittleEndian => bits.drop_first(),
        };
        let edge = match order {
            ByteOrder::BigEndian => bits.last(),
            ByteOrder::LittleEndian => bits[0],
        };
        lemma_value_bits_of_bits_value(order, rest);
        let half = bits_value(order, rest) as u64;
        let low: u64 = if edge {
            1
        } else {
            0
        };
        lemma_fits_in_63(half);
        let value = (2 * half + low) as u64;
        assert forall|i: u64| i < 64 implies bit_of(value, i) == (if i == 0 {
            edge
        } else {
            bit_of(half, (i - 1) as u64)
        }) by {
            lemma_bit_double(half, low, value, i);
        }
        let spelled = value_bits(order, value, n);
        let spelled_rest = value_bits(order, half, (n - 1) as nat);
        assert forall|j: int| 0 <= j < n implies spelled[j] == bits[j] by {
            match order {
                ByteOrder::BigEndian => {
                    if j < n - 1 {
                        assert(spelled_rest[j] == rest[j]);
                    }
                },
                ByteOrder::LittleEndian => {
                    if j > 0 {
                        assert(spelled_rest[j - 1] == rest[j - 1]);
                    }
                },
            }
        }
    }
}

/// The number that stands for the bits of `head` followed by those of `tail`.
pub open spec fn join_values(order: ByteOrder, head: u64, head_len: nat, tail: u64, tail_len: nat) -> u64
    recommends
        head_len + tail_len <= 64,
        head_len < 64,
        tail_len < 64,
{
    match order {
        ByteOrder::BigEndian => (head << (tail_len as u64)) | tail,
        ByteOrder::LittleEndian => head | (tail << (head_len as u64)),
    }
}

/// Joining two numbers joins the bits that they stand for.
pub proof fn lemma_join_values(order: ByteOrder, head: u64, head_len: nat, tail: u64, tail_len: nat)
    requires
        head_len + tail_len <= 64,
        head_len < 64,
        tail_len < 64,
        fits_in(head, head_len),
        fits_in(tail, tail_len),
    ensures
        fits_in(join_values(order, head, head_len, tail, tail_len), head_len + tail_len),
        value_bits(order, join_values(order, head, head_len, tail, tail_len), head_len + tail_len)
            == value_bits(order, head, head_len) + value_bits(order, tail, tail_len),
{
    let joined = join_values(order, head, head_len, tail, tail_len);
    assert forall|p: u64| p < 64 implies bit_of(joined, p) == match order {
        ByteOrder::BigEndian => if p < tail_len {
            bit_of(tail, p)
        } else {
            bit_of(head, (p - tail_len) as u64)
        },
        ByteOrder::LittleEndian => if p < head_len {
            bit_of(head, p)
        } else {
            bit_of(tail, (p - head_len) as u64)
        },
    } by {
        match order {
            ByteOrder::BigEndian => {
                lemma_bit_or(head << (tail_len as u64), tail, p);
                lemma_bit_shl(head, tail_len as u64, p);
            },
            ByteOrder::LittleEndian => {
                lemma_bit_or(head, tail << (head_len as u64), p);
                lemma_bit_shl(tail, head_len as u64, p);
            },
        }
    }
}

/// The number that stands for `head_bits` followed by `tail_bits` is the two
/// numbers joined.
pub proof fn lemma_joined_read(
    order: ByteOrder,
    head_bits: Seq<bool>,
    tail_bits: Seq<bool>,
    head: u64,
    tail: u64,
)
    requires
        head_bits.len() < 64,
        tail_bits.len() < 64,
        head_bits.len() + tail_bits.len() <= 64,
        head == bits_value(order, head_bits),
        tail == bits_value(order, tail_bits),
    ensures
        join_values(order, head, head_bits.len(), tail, tail_bits.len()) == bits_value(
            order,
            head_bits + tail_bits,
        ),
{
    lemma_value_bits_of_bits_value(order, head_bits);
    lemma_value_bits_of_bits_value(order, tail_bits);
    lemma_join_values(order, head, head_bits.len(), tail, tail_bits.len());
    lemma_bits_value_of_value_bits(
        order,
        join_values(order, head, head_bits.len(), tail, tail_bits.len()),
        head_bits.len() + tail_bits.len(),
    );
}

/// The number that the first `first_len` of the `n` bits of `value` stand
/// for, taken in stream order.
pub open spec fn split_first(order: ByteOrder, value: u64, n: nat, first_len: nat) -> u64
    recommends
        1 <= first_len <= n <= 64,
{
    match order {
        ByteOrder::BigEndian => value >> ((n - first_len) as u64),
        ByteOrder::LittleEndian => low_bits(value, first_len),
    }
}

/// The number that the bits of `value` behind the first `first_len` stand
/// for.
pub open spec fn split_rest(order: ByteOrder, value: u64, n: nat, first_len: nat) -> u64
    recommends
        1 <= first_len <= n <= 64,
{
    match order {
        ByteOrder::BigEndian => low_bits(value, (n - first_len) as nat),
        ByteOrder::LittleEndian => if first_len == 64 {
            0
        } else {
            value >> (first_len as u64)
        },
    }
}

/// Splitting a value splits the bits that it stands for.
pub proof fn lemma_split_value(order: ByteOrder, value: u64, n: nat, first_len: nat)
    requires
        1 <= first_len <= n <= 64,
        fits_in(value, n),
    ensures
        fits_in(split_first(order, value, n, first_len), first_len),
        fits_in(split_rest(order, value, n, first_len), (n - first_len) as nat),
        value_bits(order, value, n) == value_bits(
            order,
            split_first(order, value, n, first_len),
            first_len,
        ) + value_bits(order, split_rest(order, value, n, first_len), (n - first_len) as nat),
{
    let first = split_first(order, value, n, first_len);
    let rest = split_rest(order, value, n, first_len);
    let rest_len = (n - first_len) as nat;
    assert forall|p: u64| p < 64 implies bit_of(first, p) == (p < first_len && match order {
        ByteOrder::BigEndian => bit_of(value, (p + rest_len) as u64),
        ByteOrder::LittleEndian => bit_of(value, p),
    }) by {
        match order {
            ByteOrder::BigEndian => {
                lemma_bit_shr(value, rest_len as u64, p);
            },
            ByteOrder::LittleEndian => {
                if first_len < 64 {
                    lemma_bit_low_mask(value, first_len as u64, p);
                }
            },
        }
    }
    assert forall|p: u64| p < 64 implies bit_of(rest, p) == (p < rest_len && match order {
        ByteOrder::BigEndian => bit_of(value, p),
        ByteOrder::LittleEndian => bit_of(value, (p + first_len) as u64),
    }) by {
        match order {
            ByteOrder::BigEndian => {
                lemma_bit_low_mask(value, rest_len as u64, p);
            },
            ByteOrder::LittleEndian => {
                if first_len == 64 {
                    lemma_bit_zero(p);
                } else {
                    lemma_bit_shr(value, first_len as u64, p);
                }
            },
        }
    }
}

/// The number that the first `count` bits of `byte` stand for, taken in
/// stream order.
pub fn front_of_byte(order: ByteOrder, byte: u8, count: usize) -> (front: u64)
    requires
        1 <= count <= 8,
    ensures
        front == bits_value(order, value_bits(order, byte as u64, 8).take(count as int)),
{
    proof {
        assert forall|i: u64| 8 <= i < 64 implies !#[trigger] bit_of(byte as u64, i) by {
            lemma_bit_byte(byte, i);
        }
        lemma_split_value(order, byte as u64, 8, count as nat);
        let first = split_first(order, byte as u64, 8, count as nat);
        let rest = split_rest(order, byte as u64, 8, count as nat);
        assert((value_bits(order, first, count as nat) + value_bits(
            order,
            rest,
            (8 - count) as nat,
        )).take(count as int) =~= value_bits(order, first, count as nat));
        lemma_bits_value_of_value_bits(order, first, count as nat);
    }
    match order {
        ByteOrder::BigEndian => (byte as u64) >> ((8 - count) as u64),
        ByteOrder::LittleEndian => keep_low_bits(byte as u64, count),
    }
}

} // verus!
