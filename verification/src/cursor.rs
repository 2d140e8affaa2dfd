//! The bit cursor: a model of the reader and the writer of the `bytebuffer`
//! crate, and the contracts under which the codec calls them.
//!
//! A `ByteReader` walks forward over a byte slice; a `ByteBuffer` grows as it
//! is written. Both keep a byte position and, for bit-wise access, the place
//! of the next bit inside the current byte. `BitCursor` holds the two as one
//! bit index. Its spec functions say what each operation does to that state;
//! the `assume_specification` items below tie the operations of `bytebuffer`
//! to them. Those items are believed, not proved.

use vstd::prelude::*;
use bytebuffer::ByteBuffer;
use bytebuffer::ByteReader;

verus! {

#[verifier::external_type_specification]
#[verifier::external_body]
pub struct ExByteReader<'a>(ByteReader<'a>);

#[verifier::external_type_specification]
#[verifier::external_body]
pub struct ExByteBuffer(ByteBuffer);

#[verifier::external_type_specification]
#[verifier::external_body]
pub struct ExIoError(std::io::Error);

/// The bytes a reader was made over.
pub uninterp spec fn reader_bytes(r: ByteReader) -> Seq<u8>;

/// The index of the next bit a reader hands out: eight times its byte
/// position plus the number of bits already taken from the current byte.
pub uninterp spec fn reader_cursor(r: ByteReader) -> nat;

/// Whether a reader assembles multi-byte integers most significant byte first.
pub uninterp spec fn reader_big_endian(r: ByteReader) -> bool;

/// The bytes a buffer holds.
pub uninterp spec fn buffer_bytes(b: ByteBuffer) -> Seq<u8>;

/// The index of the next bit a buffer writes: eight times its write position
/// plus the number of bits already written into the current byte.
pub uninterp spec fn buffer_cursor(b: ByteBuffer) -> nat;

/// Whether a buffer lays multi-byte integers out most significant byte first.
pub uninterp spec fn buffer_big_endian(b: ByteBuffer) -> bool;

/// The state of a reader or a writer as the contracts see it.
pub struct BitCursor {
    /// The bytes of the buffer.
    pub bytes: Seq<u8>,
    /// The index of the next bit, counted from the start of the buffer.
    pub at: int,
    /// Network byte order for multi-byte integers.
    pub big_endian: bool,
}

/// Bit `k` of a byte, `k == 0` being the most significant.
pub open spec fn bit_of(byte: u8, k: int) -> bool {
    byte & (1u8 << ((7 - k) as u8)) != 0
}

/// The byte with bit `k` set, `k == 0` being the most significant.
pub open spec fn with_bit(byte: u8, k: int) -> u8 {
    byte | (1u8 << ((7 - k) as u8))
}

/// Bit `i` of a value, `i == 0` being the least significant.
pub open spec fn value_bit(value: u64, i: nat) -> bool {
    (value >> (i as u64)) & 1 != 0
}

/// The 16-bit integer that two bytes stand for.
pub open spec fn u16_of(first: u8, second: u8, big_endian: bool) -> u16 {
    if big_endian {
        (first as int * 256 + second as int) as u16
    } else {
        (second as int * 256 + first as int) as u16
    }
}

/// The two bytes of a 16-bit integer, most significant first.
pub open spec fn be16(value: u16) -> Seq<u8> {
    seq![(value / 256) as u8, (value % 256) as u8]
}

/// The four bytes of a 32-bit integer, most significant first.
pub open spec fn be32(value: u32) -> Seq<u8> {
    seq![
        (value / 0x100_0000) as u8,
        (value / 0x1_0000 % 256) as u8,
        (value / 0x100 % 256) as u8,
        (value % 256) as u8,
    ]
}

/// The bytes of a 16-bit integer in the given byte order.
pub open spec fn u16_bytes(value: u16, big_endian: bool) -> Seq<u8> {
    if big_endian {
        be16(value)
    } else {
        be16(value).reverse()
    }
}

/// The bytes of a 32-bit integer in the given byte order.
pub open spec fn u32_bytes(value: u32, big_endian: bool) -> Seq<u8> {
    if big_endian {
        be32(value)
    } else {
        be32(value).reverse()
    }
}

impl BitCursor {
    /// The cursor moved to the next byte boundary: bits left over in a byte
    /// that was partly read or written are given up.
    pub open spec fn flushed(self) -> BitCursor {
        BitCursor { at: 8 * ((self.at + 7) / 8), ..self }
    }

    /// The cursor moved forward by `n` bits.
    pub open spec fn advanced(self, n: int) -> BitCursor {
        BitCursor { at: self.at + n, ..self }
    }

    /// The cursor stands on a byte boundary at the end of its bytes: what it
    /// writes is appended.
    pub open spec fn at_end(self) -> bool {
        self.at == 8 * self.bytes.len()
    }

    /// The cursor stands at the end of its bytes and writes in network byte
    /// order.
    pub open spec fn appending(self) -> bool {
        self.big_endian && self.at_end()
    }

    /// The cursor reads in network byte order.
    pub open spec fn network_order(self) -> bool {
        self.big_endian
    }

    /// Reading one bit: the bit under the cursor, unless the cursor's byte
    /// lies past the end.
    pub open spec fn read_bit(self) -> (Option<bool>, BitCursor) {
        if self.at / 8 < self.bytes.len() {
            (Some(bit_of(self.bytes[self.at / 8], self.at % 8)), self.advanced(1))
        } else {
            (None, self)
        }
    }

    /// Reading `n` bits one after the other into a number, first bit highest.
    /// Where the bits run out the cursor stays where the last bit was had.
    pub open spec fn read_bits(self, n: nat) -> (Option<u64>, BitCursor)
        decreases n,
    {
        if n == 0 {
            (Some(0u64), self)
        } else {
            match self.read_bit() {
                (Some(bit), next) => match next.read_bits((n - 1) as nat) {
                    (Some(low), last) => (
                        Some((if bit { 1u64 } else { 0u64 }) << ((n - 1) as u64) | low),
                        last,
                    ),
                    (None, last) => (None, last),
                },
                (None, next) => (None, next),
            }
        }
    }

    /// Reading `n` whole bytes from the next byte boundary on.
    pub open spec fn read_bytes(self, n: int) -> (Option<Seq<u8>>, BitCursor) {
        let start = self.flushed();
        if start.at / 8 + n <= self.bytes.len() {
            (Some(self.bytes.subrange(start.at / 8, start.at / 8 + n)), start.advanced(8 * n))
        } else {
            (None, start)
        }
    }

    /// Reading one byte from the next byte boundary.
    pub open spec fn read_u8(self) -> (Option<u8>, BitCursor) {
        match self.read_bytes(1) {
            (Some(bytes), next) => (Some(bytes[0]), next),
            (None, next) => (None, next),
        }
    }

    /// Reading a 16-bit integer from the next byte boundary.
    pub open spec fn read_u16(self) -> (Option<u16>, BitCursor) {
        match self.read_bytes(2) {
            (Some(bytes), next) => (Some(u16_of(bytes[0], bytes[1], self.big_endian)), next),
            (None, next) => (None, next),
        }
    }

    /// Writing one bit: the buffer grows by a zero byte where the cursor
    /// stands at its end, and a bit that is set is or-ed into the byte.
    pub open spec fn write_bit(self, bit: bool) -> BitCursor {
        let place = self.at / 8;
        let grown = if place < self.bytes.len() {
            self.bytes
        } else {
            self.bytes + Seq::new((place + 1 - self.bytes.len()) as nat, |i: int| 0u8)
        };
        let byte = if bit {
            with_bit(grown[place], self.at % 8)
        } else {
            grown[place]
        };
        BitCursor { bytes: grown.update(place, byte), at: self.at + 1, ..self }
    }

    /// Writing the low `n` bits of a value, highest of them first.
    pub open spec fn write_bits(self, value: u64, n: nat) -> BitCursor
        decreases n,
    {
        if n == 0 {
            self
        } else {
            self.write_bit(value_bit(value, (n - 1) as nat)).write_bits(value, (n - 1) as nat)
        }
    }

    /// Writing whole bytes from the next byte boundary on: they replace what
    /// stood there and lengthen the buffer where they reach past its end.
    pub open spec fn write_bytes(self, data: Seq<u8>) -> BitCursor {
        let start = self.flushed();
        let place = start.at / 8;
        let rest = if place + data.len() < self.bytes.len() {
            self.bytes.skip(place + data.len())
        } else {
            Seq::<u8>::empty()
        };
        BitCursor {
            bytes: self.bytes.take(place) + data + rest,
            at: start.at + 8 * data.len(),
            ..self
        }
    }
}

/// The state of a reader.
pub open spec fn reader_state(r: ByteReader) -> BitCursor {
    BitCursor {
        bytes: reader_bytes(r),
        at: reader_cursor(r) as int,
        big_endian: reader_big_endian(r),
    }
}

/// The state of a buffer, as far as writing goes.
pub open spec fn buffer_state(b: ByteBuffer) -> BitCursor {
    BitCursor {
        bytes: buffer_bytes(b),
        at: buffer_cursor(b) as int,
        big_endian: buffer_big_endian(b),
    }
}

/// What a read came back with, the error put aside.
pub open spec fn read_value<T>(res: Result<T, std::io::Error>) -> Option<T> {
    match res {
        Ok(value) => Some(value),
        Err(_) => None,
    }
}

/// `ByteReader::from_bytes`: the reader stands at the first bit of the given
/// bytes and reads in network byte order.
pub assume_specification<'a, 'b>[ ByteReader::<'a>::from_bytes ](bytes: &'b [u8]) -> (r: ByteReader<
    'b,
>)
    ensures
        reader_bytes(r) == bytes@,
        reader_cursor(r) == 0,
        reader_big_endian(r),
;

/// `ByteReader::read_bit`: hands out the bit under the cursor and steps over
/// it; fails, leaving the reader as it was, when no byte is left.
pub assume_specification<'a>[ ByteReader::<'a>::read_bit ](r: &mut ByteReader<'a>) -> (res: Result<
    bool,
    std::io::Error,
>)
    ensures
        (read_value(res), reader_state(*final(r))) == reader_state(*old(r)).read_bit(),
;

/// `ByteReader::read_bits`: calls `read_bit` `n` times and shifts the bits
/// into a number, the first one highest; fails at the first bit that is
/// missing. More than 64 bits are refused by the reader, so they are not
/// asked for.
pub assume_specification<'a>[ ByteReader::<'a>::read_bits ](r: &mut ByteReader<'a>, n: u8) -> (res:
    Result<u64, std::io::Error>)
    requires
        n <= 64,
    ensures
        (read_value(res), reader_state(*final(r))) == reader_state(*old(r)).read_bits(n as nat),
;

/// `ByteReader::read_u8`: gives up the rest of a partly read byte, then
/// returns the next byte; fails when none is left.
pub assume_specification<'a>[ ByteReader::<'a>::read_u8 ](r: &mut ByteReader<'a>) -> (res: Result<
    u8,
    std::io::Error,
>)
    ensures
        (read_value(res), reader_state(*final(r))) == reader_state(*old(r)).read_u8(),
;

/// `ByteReader::read_u16`: gives up the rest of a partly read byte, then
/// returns the next two bytes as one integer in the reader's byte order;
/// fails when fewer than two are left.
pub assume_specification<'a>[ ByteReader::<'a>::read_u16 ](r: &mut ByteReader<'a>) -> (res: Result<
    u16,
    std::io::Error,
>)
    ensures
        (read_value(res), reader_state(*final(r))) == reader_state(*old(r)).read_u16(),
;

/// `ByteReader::read_bytes`: gives up the rest of a partly read byte, then
/// returns a copy of the next `size` bytes; fails when fewer are left. The
/// reader adds `size` to its position before it compares, so the sum has to
/// fit.
pub assume_specification<'a>[ ByteReader::<'a>::read_bytes ](
    r: &mut ByteReader<'a>,
    size: usize,
) -> (res: Result<Vec<u8>, std::io::Error>)
    requires
        size <= isize::MAX,
    ensures
        (match res {
            Ok(bytes) => Some(bytes@),
            Err(_) => None,
        }, reader_state(*final(r))) == reader_state(*old(r)).read_bytes(size as int),
;

/// `ByteBuffer::new`: an empty buffer in network byte order.
pub assume_specification[ ByteBuffer::new ]() -> (b: ByteBuffer)
    ensures
        buffer_bytes(b) == Seq::<u8>::empty(),
        buffer_cursor(b) == 0,
        buffer_big_endian(b),
;

/// `ByteBuffer::write_bit`: or-s the bit into the byte under the cursor,
/// which is a fresh zero byte where the cursor stands at the end.
pub assume_specification[ ByteBuffer::write_bit ](b: &mut ByteBuffer, bit: bool)
    ensures
        buffer_state(*final(b)) == buffer_state(*old(b)).write_bit(bit),
;

/// `ByteBuffer::write_bits`: calls `write_bit` for the low `n` bits of the
/// value, from the highest down. The buffer shifts the value by `n - 1`, so
/// `n` stays within the width of the value.
pub assume_specification[ ByteBuffer::write_bits ](b: &mut ByteBuffer, value: u64, n: u8)
    requires
        n <= 64,
    ensures
        buffer_state(*final(b)) == buffer_state(*old(b)).write_bits(value, n as nat),
;

/// `ByteBuffer::write_u8`: gives up the rest of a partly written byte, then
/// writes the byte.
pub assume_specification[ ByteBuffer::write_u8 ](b: &mut ByteBuffer, val: u8)
    ensures
        buffer_state(*final(b)) == buffer_state(*old(b)).write_bytes(seq![val]),
;

/// `ByteBuffer::write_u16`: gives up the rest of a partly written byte, then
/// writes the two bytes of the value in the buffer's byte order.
pub assume_specification[ ByteBuffer::write_u16 ](b: &mut ByteBuffer, val: u16)
    ensures
        buffer_state(*final(b)) == buffer_state(*old(b)).write_bytes(
            u16_bytes(val, buffer_big_endian(*old(b))),
        ),
;

/// `ByteBuffer::write_u32`: gives up the rest of a partly written byte, then
/// writes the four bytes of the value in the buffer's byte order.
pub assume_specification[ ByteBuffer::write_u32 ](b: &mut ByteBuffer, val: u32)
    ensures
        buffer_state(*final(b)) == buffer_state(*old(b)).write_bytes(
            u32_bytes(val, buffer_big_endian(*old(b))),
        ),
;

/// `ByteBuffer::into_vec`: the bytes of the buffer.
pub assume_specification[ ByteBuffer::into_vec ](b: ByteBuffer) -> (bytes: Vec<u8>)
    ensures
        bytes@ == buffer_bytes(b),
;

} // verus!
