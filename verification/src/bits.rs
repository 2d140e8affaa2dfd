//! What follows from the bit cursor's definitions: how reads and writes of
//! bits compose, and what they come to on whole bytes. At the end stands a
//! writer of byte runs that is built on them.

use vstd::prelude::*;
use bytebuffer::ByteBuffer;
use crate::cursor::{
    bit_of, buffer_big_endian, buffer_bytes, buffer_state, value_bit, with_bit, BitCursor,
};

verus! {

/// A bit read from inside the buffer is bit `k` of byte `place`.
pub proof fn lemma_read_bit_inside(c: BitCursor, place: int, k: int)
    requires
        0 <= place < c.bytes.len(),
        0 <= k < 8,
        c.at == 8 * place + k,
    ensures
        c.read_bit() == (Some(bit_of(c.bytes[place], k)), c.advanced(1)),
{
}

/// No bit can be read at or past the end of the buffer.
pub proof fn lemma_read_bit_outside(c: BitCursor)
    requires
        c.at >= 8 * c.bytes.len(),
    ensures
        c.read_bit() == (None::<bool>, c),
{
}

/// A bit written at the end of the buffer starts a new byte.
pub proof fn lemma_write_bit_opens(c: BitCursor, bit: bool)
    requires
        c.at == 8 * c.bytes.len(),
    ensures
        c.write_bit(bit) == (BitCursor {
            bytes: c.bytes.push(
                if bit {
                    with_bit(0, 0)
                } else {
                    0
                },
            ),
            at: c.at + 1,
            ..c
        }),
{
    let place = c.at / 8;
    assert(place == c.bytes.len());
    let grown = c.bytes + Seq::new(1, |i: int| 0u8);
    assert(grown =~= c.bytes.push(0u8));
    assert(c.write_bit(bit).bytes =~= c.bytes.push(
        if bit {
            with_bit(0, 0)
        } else {
            0
        },
    ));
}

/// A bit written into the last byte of the buffer leaves the bytes before
/// it alone.
pub proof fn lemma_write_bit_fills(c: BitCursor, head: Seq<u8>, byte: u8, k: int, bit: bool)
    requires
        c.bytes == head.push(byte),
        0 < k < 8,
        c.at == 8 * head.len() + k,
    ensures
        c.write_bit(bit) == (BitCursor {
            bytes: head.push(
                if bit {
                    with_bit(byte, k)
                } else {
                    byte
                },
            ),
            at: c.at + 1,
            ..c
        }),
{
    let place = c.at / 8;
    assert(place == head.len());
    assert(c.write_bit(bit).bytes =~= head.push(
        if bit {
            with_bit(byte, k)
        } else {
            byte
        },
    ));
}

/// Bytes written at the end of the buffer are appended.
pub proof fn lemma_write_bytes_appends(c: BitCursor, data: Seq<u8>)
    requires
        c.at == 8 * c.bytes.len(),
    ensures
        c.write_bytes(data) == (BitCursor {
            bytes: c.bytes + data,
            at: c.at + 8 * data.len(),
            ..c
        }),
{
    assert(c.flushed().at == c.at);
    assert(c.write_bytes(data).bytes =~= c.bytes + data);
}

/// Shifting left in two steps is shifting once.
proof fn lemma_shift_twice(value: u64, m: u64, n: u64)
    by (bit_vector)
    requires
        m < 64,
        n < 64,
        m + n < 64,
    ensures
        (value << m) << n == value << ((m + n) as u64),
{
}

/// Shifting left goes through an or.
proof fn lemma_shift_of_or(left: u64, right: u64, n: u64)
    by (bit_vector)
    requires
        n < 64,
    ensures
        (left | right) << n == (left << n) | (right << n),
        (0u64 << n) | right == right,
{
}

/// Or-ing three numbers is the same in either grouping.
proof fn lemma_or_groups(a: u64, b: u64, c: u64)
    by (bit_vector)
    ensures
        a | (b | c) == (a | b) | c,
{
}

/// Shifting left in two steps is shifting once, and it goes through an or.
proof fn lemma_shift_or(bit: u64, high: u64, low: u64, m: u64, n: u64)
    requires
        m < 64,
        n < 64,
        m + n < 64,
    ensures
        (bit << ((m + n) as u64)) | ((high << n) | low) == (((bit << m) | high) << n) | low,
        (0u64 << n) | low == low,
{
    lemma_shift_twice(bit, m, n);
    lemma_shift_of_or(bit << m, high, n);
    lemma_shift_of_or(0, low, n);
    lemma_or_groups(bit << ((m + n) as u64), high << n, low);
}

/// Reading `m + n` bits is reading `m` bits and then `n`: the first make the
/// high part of the number, and where either read fails the whole fails at
/// the same place.
pub proof fn lemma_read_bits_split(c: BitCursor, m: nat, n: nat)
    requires
        m + n <= 64,
        n < 64,
    ensures
        c.read_bits(m + n) == (match c.read_bits(m) {
            (Some(high), middle) => match middle.read_bits(n) {
                (Some(low), last) => (Some((high << (n as u64)) | low), last),
                (None, last) => (None, last),
            },
            (None, middle) => (None, middle),
        }),
    decreases m,
{
    if m == 0 {
        match c.read_bits(n) {
            (Some(low), _) => {
                lemma_shift_or(0, 0, low, 0, n as u64);
            },
            (None, _) => {},
        }
    } else {
        match c.read_bit() {
            (Some(bit), next) => {
                lemma_read_bits_split(next, (m - 1) as nat, n);
                assert((m + n - 1) as nat == (m - 1) as nat + n);
                match next.read_bits((m - 1) as nat) {
                    (Some(high), middle) => match middle.read_bits(n) {
                        (Some(low), _) => {
                            let one: u64 = if bit {
                                1
                            } else {
                                0
                            };
                            lemma_shift_or(one, high, low, (m - 1) as u64, n as u64);
                        },
                        (None, _) => {},
                    },
                    (None, _) => {},
                }
            },
            (None, _) => {},
        }
    }
}

/// An or of a bit shifted to place `n` and a number below it stays below
/// place `n + 1`.
proof fn lemma_shift_small(bit: u64, low: u64, n: u64)
    by (bit_vector)
    requires
        n < 63,
        bit <= 1,
        low >> n == 0,
    ensures
        ((bit << n) | low) >> ((n + 1) as u64) == 0,
{
}

/// A number read from `n` bits has no bit set from place `n` up.
pub proof fn lemma_read_bits_small(c: BitCursor, n: nat)
    requires
        n < 64,
    ensures
        c.read_bits(n).0 matches Some(value) ==> value >> (n as u64) == 0,
    decreases n,
{
    if n == 0 {
        assert(0u64 >> 0u64 == 0) by (bit_vector);
    } else {
        match c.read_bit() {
            (Some(bit), next) => {
                lemma_read_bits_small(next, (n - 1) as nat);
                match next.read_bits((n - 1) as nat) {
                    (Some(low), _) => {
                        let one: u64 = if bit {
                            1
                        } else {
                            0
                        };
                        lemma_shift_small(one, low, (n - 1) as u64);
                    },
                    (None, _) => {},
                }
            },
            (None, _) => {},
        }
    }
}

/// A read of bits keeps the bytes and the byte order, never moves the cursor
/// back, and moves it by the number of bits where it succeeds.
pub proof fn lemma_read_bits_keeps(c: BitCursor, n: nat)
    ensures
        c.read_bits(n).1.bytes == c.bytes,
        c.read_bits(n).1.big_endian == c.big_endian,
        c.read_bits(n).1.at >= c.at,
        c.read_bits(n).0 is Some ==> c.read_bits(n).1.at == c.at + n,
    decreases n,
{
    if n > 0 {
        lemma_read_bits_keeps(c.read_bit().1, (n - 1) as nat);
    }
}

/// A write of bits keeps the byte order and moves the cursor by the number
/// of bits.
pub proof fn lemma_write_bits_keeps(c: BitCursor, value: u64, n: nat)
    ensures
        c.write_bits(value, n).big_endian == c.big_endian,
        c.write_bits(value, n).at == c.at + n,
    decreases n,
{
    if n > 0 {
        lemma_write_bits_keeps(
            c.write_bit(value_bit(value, (n - 1) as nat)),
            value,
            (n - 1) as nat,
        );
    }
}

/// One bit read as a number is 1 where the bit is set and 0 where it is
/// clear.
pub proof fn lemma_read_bits_one(c: BitCursor)
    ensures
        c.read_bits(1) == (match c.read_bit() {
            (Some(bit), next) => (
                Some(
                    if bit {
                        1u64
                    } else {
                        0u64
                    },
                ),
                next,
            ),
            (None, next) => (None::<u64>, next),
        }),
{
    assert((1u64 << 0u64) | 0u64 == 1u64) by (bit_vector);
    assert((0u64 << 0u64) | 0u64 == 0u64) by (bit_vector);
    reveal_with_fuel(BitCursor::read_bits, 2);
}

/// One bit written as a number is the number's lowest bit.
pub proof fn lemma_write_bits_one(c: BitCursor, value: u64)
    ensures
        c.write_bits(value, 1) == c.write_bit(value_bit(value, 0)),
{
    reveal_with_fuel(BitCursor::write_bits, 2);
}

/// At or past the end of the buffer no bits can be read.
pub proof fn lemma_read_bits_outside(c: BitCursor, n: nat)
    requires
        n > 0,
        c.at >= 8 * c.bytes.len(),
    ensures
        c.read_bits(n) == (None::<u64>, c),
{
    lemma_read_bit_outside(c);
}

/// The eight bits of a byte, the highest first, make the byte.
proof fn lemma_byte_of_bits(b: u8)
    by (bit_vector)
    ensures
        (if b & (1u8 << 7u8) != 0 { 1u64 } else { 0u64 }) << 7u64
            | ((if b & (1u8 << 6u8) != 0 { 1u64 } else { 0u64 }) << 6u64
            | ((if b & (1u8 << 5u8) != 0 { 1u64 } else { 0u64 }) << 5u64
            | ((if b & (1u8 << 4u8) != 0 { 1u64 } else { 0u64 }) << 4u64
            | ((if b & (1u8 << 3u8) != 0 { 1u64 } else { 0u64 }) << 3u64
            | ((if b & (1u8 << 2u8) != 0 { 1u64 } else { 0u64 }) << 2u64
            | ((if b & (1u8 << 1u8) != 0 { 1u64 } else { 0u64 }) << 1u64
            | ((if b & (1u8 << 0u8) != 0 { 1u64 } else { 0u64 }) << 0u64 | 0u64))))))) == b as u64,
{
}

/// Eight bits read from a byte boundary inside the buffer are the byte
/// there.
pub proof fn lemma_read_bits_byte(c: BitCursor)
    requires
        c.at % 8 == 0,
        0 <= c.at / 8 < c.bytes.len(),
    ensures
        c.read_bits(8) == (Some(c.bytes[c.at / 8] as u64), c.advanced(8)),
{
    let place = c.at / 8;
    let b = c.bytes[place];
    lemma_byte_of_bits(b);
    lemma_read_bit_inside(c, place, 0);
    lemma_read_bit_inside(c.advanced(1), place, 1);
    lemma_read_bit_inside(c.advanced(2), place, 2);
    lemma_read_bit_inside(c.advanced(3), place, 3);
    lemma_read_bit_inside(c.advanced(4), place, 4);
    lemma_read_bit_inside(c.advanced(5), place, 5);
    lemma_read_bit_inside(c.advanced(6), place, 6);
    lemma_read_bit_inside(c.advanced(7), place, 7);
    assert(c.advanced(1).advanced(1) == c.advanced(2));
    assert(c.advanced(2).advanced(1) == c.advanced(3));
    assert(c.advanced(3).advanced(1) == c.advanced(4));
    assert(c.advanced(4).advanced(1) == c.advanced(5));
    assert(c.advanced(5).advanced(1) == c.advanced(6));
    assert(c.advanced(6).advanced(1) == c.advanced(7));
    assert(c.advanced(7).advanced(1) == c.advanced(8));
    assert(c.advanced(8).read_bits(0) == (Some(0u64), c.advanced(8)));
    reveal_with_fuel(BitCursor::read_bits, 9);
}

/// A bit of a number shifted right is the bit that many places higher.
proof fn lemma_bit_of_shifted(value: u64, i: u64, n: u64)
    by (bit_vector)
    requires
        i < 64,
        n < 64,
        i + n < 64,
    ensures
        ((value >> n) >> i) & 1 == (value >> ((i + n) as u64)) & 1,
{
}

/// Writing the low `m + n` bits of a number is writing the `m` bits above
/// its low `n` and then the low `n`.
pub proof fn lemma_write_bits_split(c: BitCursor, value: u64, m: nat, n: nat)
    requires
        m + n <= 64,
        n < 64,
    ensures
        c.write_bits(value, m + n) == c.write_bits(value >> (n as u64), m).write_bits(value, n),
    decreases m,
{
    if m > 0 {
        lemma_bit_of_shifted(value, (m - 1) as u64, n as u64);
        assert(value_bit(value >> (n as u64), (m - 1) as nat) == value_bit(
            value,
            (m + n - 1) as nat,
        ));
        assert((m + n - 1) as nat == (m - 1) as nat + n);
        lemma_write_bits_split(
            c.write_bit(value_bit(value, (m + n - 1) as nat)),
            value,
            (m - 1) as nat,
            n,
        );
    }
}

/// Two numbers whose low `n` bits are the same are written the same in `n`
/// bits.
pub proof fn lemma_write_bits_same(c: BitCursor, value: u64, other: u64, n: nat)
    requires
        forall|i: nat| i < n ==> value_bit(value, i) == value_bit(other, i),
    ensures
        c.write_bits(value, n) == c.write_bits(other, n),
    decreases n,
{
    if n > 0 {
        lemma_write_bits_same(
            c.write_bit(value_bit(value, (n - 1) as nat)),
            value,
            other,
            (n - 1) as nat,
        );
    }
}

/// Or-ing the eight low bits of a number into a zero byte, the highest
/// first, makes the number's low byte.
proof fn lemma_bits_of_byte(v: u64)
    by (bit_vector)
    ensures
        ({
            let b7 = if (v >> 7u64) & 1 != 0 { 0u8 | (1u8 << 7u8) } else { 0u8 };
            let b6 = if (v >> 6u64) & 1 != 0 { b7 | (1u8 << 6u8) } else { b7 };
            let b5 = if (v >> 5u64) & 1 != 0 { b6 | (1u8 << 5u8) } else { b6 };
            let b4 = if (v >> 4u64) & 1 != 0 { b5 | (1u8 << 4u8) } else { b5 };
            let b3 = if (v >> 3u64) & 1 != 0 { b4 | (1u8 << 3u8) } else { b4 };
            let b2 = if (v >> 2u64) & 1 != 0 { b3 | (1u8 << 2u8) } else { b3 };
            let b1 = if (v >> 1u64) & 1 != 0 { b2 | (1u8 << 1u8) } else { b2 };
            let b0 = if (v >> 0u64) & 1 != 0 { b1 | (1u8 << 0u8) } else { b1 };
            b0 == (v % 256) as u8
        }),
{
}

/// The low eight bits of a number written at the end of the buffer append
/// the number's low byte.
pub proof fn lemma_write_bits_byte(c: BitCursor, value: u64)
    requires
        c.at_end(),
    ensures
        c.write_bits(value, 8) == (BitCursor {
            bytes: c.bytes.push((value % 256) as u8),
            at: c.at + 8,
            ..c
        }),
{
    lemma_bits_of_byte(value);
    reveal_with_fuel(BitCursor::write_bits, 9);
    let head = c.bytes;
    let v7 = if value_bit(value, 7) { with_bit(0, 0) } else { 0u8 };
    let c1 = c.write_bit(value_bit(value, 7));
    lemma_write_bit_opens(c, value_bit(value, 7));
    let v6 = if value_bit(value, 6) { with_bit(v7, 1) } else { v7 };
    let c2 = c1.write_bit(value_bit(value, 6));
    lemma_write_bit_fills(c1, head, v7, 1, value_bit(value, 6));
    let v5 = if value_bit(value, 5) { with_bit(v6, 2) } else { v6 };
    let c3 = c2.write_bit(value_bit(value, 5));
    lemma_write_bit_fills(c2, head, v6, 2, value_bit(value, 5));
    let v4 = if value_bit(value, 4) { with_bit(v5, 3) } else { v5 };
    let c4 = c3.write_bit(value_bit(value, 4));
    lemma_write_bit_fills(c3, head, v5, 3, value_bit(value, 4));
    let v3 = if value_bit(value, 3) { with_bit(v4, 4) } else { v4 };
    let c5 = c4.write_bit(value_bit(value, 3));
    lemma_write_bit_fills(c4, head, v4, 4, value_bit(value, 3));
    let v2 = if value_bit(value, 2) { with_bit(v3, 5) } else { v3 };
    let c6 = c5.write_bit(value_bit(value, 2));
    lemma_write_bit_fills(c5, head, v3, 5, value_bit(value, 2));
    let v1 = if value_bit(value, 1) { with_bit(v2, 6) } else { v2 };
    let c7 = c6.write_bit(value_bit(value, 1));
    lemma_write_bit_fills(c6, head, v2, 6, value_bit(value, 1));
    let v0 = if value_bit(value, 0) { with_bit(v1, 7) } else { v1 };
    let c8 = c7.write_bit(value_bit(value, 0));
    lemma_write_bit_fills(c7, head, v1, 7, value_bit(value, 0));
    assert(c8.write_bits(value, 0) == c8);
    assert(c.write_bits(value, 8) == c8);
    assert(v0 == (value % 256) as u8);
}

/// Appends bytes to a writer that stands at the end of its buffer, one by
/// one.
pub fn write_bytes(writer: &mut ByteBuffer, bytes: &[u8])
    requires
        buffer_state(*old(writer)).at_end(),
    ensures
        buffer_state(*final(writer)).at_end(),
        buffer_big_endian(*final(writer)) == buffer_big_endian(*old(writer)),
        buffer_bytes(*final(writer)) == buffer_bytes(*old(writer)) + bytes@,
{
    let mut at: usize = 0;
    while at < bytes.len()
        invariant
            at <= bytes@.len(),
            buffer_state(*writer).at_end(),
            buffer_big_endian(*writer) == buffer_big_endian(*old(writer)),
            buffer_bytes(*writer) == buffer_bytes(*old(writer)) + bytes@.take(at as int),
        decreases bytes@.len() - at,
    {
        proof {
            lemma_write_bytes_appends(buffer_state(*writer), seq![bytes@[at as int]]);
            assert(bytes@.take(at as int) + seq![bytes@[at as int]] == bytes@.take(at + 1));
        }
        writer.write_u8(bytes[at]);
        at += 1;
    }
    assert(bytes@.take(at as int) == bytes@);
}

} // verus!
