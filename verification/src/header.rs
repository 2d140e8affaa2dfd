//! The fixed twelve-byte header and its packed flags word.

use vstd::prelude::*;
use bytebuffer::ByteBuffer;
use bytebuffer::ByteReader;
use crate::bits::{
    lemma_read_bits_byte, lemma_read_bits_keeps, lemma_read_bits_one, lemma_read_bits_outside,
    lemma_read_bits_small, lemma_read_bits_split, lemma_write_bits_byte, lemma_write_bits_keeps,
    lemma_write_bits_one, lemma_write_bits_same, lemma_write_bits_split,
    lemma_write_bytes_appends,
};
use crate::cursor::{
    be16, buffer_bytes, buffer_state, reader_bytes, reader_cursor, reader_state, u16_of,
    value_bit, BitCursor,
};
use crate::error::DnsError;

verus! {

/// The flags word of a header, one field per group of bits.
#[derive(Clone, Copy, Debug, PartialEq, Eq, Structural)]
pub struct Flags {
    pub qr: bool,
    pub opcode: u8,
    pub authorihative_answer: bool,
    pub truncate: bool,
    pub recursion_desired: bool,
    pub recursion_available: bool,
    pub response_code: u8,
}

/// The weight that a flag has in the word when set.
pub open spec fn flag(set: bool, weight: int) -> int {
    if set {
        weight
    } else {
        0
    }
}

impl Flags {
    /// The flags as one 16-bit word, from the highest bit down: qr, four
    /// bits of opcode, aa, tc, rd, ra, three zero bits, four bits of response
    /// code. Of opcode and response code only the low four bits go in.
    pub open spec fn word(self) -> u16 {
        (flag(self.qr, 0x8000) + 0x800 * (self.opcode % 16) + flag(
            self.authorihative_answer,
            0x400,
        ) + flag(self.truncate, 0x200) + flag(self.recursion_desired, 0x100) + flag(
            self.recursion_available,
            0x80,
        ) + self.response_code % 16) as u16
    }

    /// The flags that a 16-bit word stands for. The three reserved bits are
    /// not looked at.
    pub open spec fn of_word(word: u16) -> Flags {
        Flags {
            qr: word / 0x8000 == 1,
            opcode: (word / 0x800 % 16) as u8,
            authorihative_answer: word / 0x400 % 2 == 1,
            truncate: word / 0x200 % 2 == 1,
            recursion_desired: word / 0x100 % 2 == 1,
            recursion_available: word / 0x80 % 2 == 1,
            response_code: (word % 16) as u8,
        }
    }

    /// The two bytes of the flags word on the wire.
    pub open spec fn wire(self) -> Seq<u8> {
        be16(self.word())
    }

    /// Every field fits the bits it has in the word.
    pub open spec fn fits(self) -> bool {
        self.opcode < 16 && self.response_code < 16
    }

    /// All flags clear, opcode and response code zero.
    pub open spec fn clear() -> Flags {
        Flags {
            qr: false,
            opcode: 0,
            authorihative_answer: false,
            truncate: false,
            recursion_desired: false,
            recursion_available: false,
            response_code: 0,
        }
    }

    /// Reading the flags at a cursor: the next sixteen bits as a word,
    /// wherever the cursor stands in its byte.
    pub open spec fn read(c: BitCursor) -> (Option<Flags>, BitCursor) {
        match c.read_bits(16) {
            (Some(word), next) => (Some(Flags::of_word(word as u16)), next),
            (None, next) => (None, next),
        }
    }

    /// Writing the flags at a cursor: the word in sixteen bits, wherever the
    /// cursor stands in its byte.
    pub open spec fn write(self, c: BitCursor) -> BitCursor {
        c.write_bits(self.word() as u64, 16)
    }

    /// All flags clear.
    pub fn new() -> (flags: Flags)
        ensures
            flags == Flags::clear(),
    {
        Flags {
            qr: false,
            opcode: 0,
            authorihative_answer: false,
            truncate: false,
            recursion_desired: false,
            recursion_available: false,
            response_code: 0,
        }
    }

    /// Reads the flags word: the next sixteen bits of the reader. On a byte
    /// boundary these are the next two bytes.
    pub fn read_buf(reader: &mut ByteReader) -> (res: Result<Flags, DnsError>)
        ensures
            (match res {
                Ok(flags) => Some(flags),
                Err(_) => None,
            }, reader_state(*final(reader))) == Flags::read(reader_state(*old(reader))),
            res matches Err(e) ==> e == DnsError::UnexpectedEndOfBuffer,
            reader_cursor(*old(reader)) % 8 == 0 ==> {
                let at = reader_cursor(*old(reader)) as int / 8;
                &&& res is Ok <==> at + 2 <= reader_bytes(*old(reader)).len()
                &&& res matches Ok(flags) ==> flags == Flags::of_word(
                    u16_of(
                        reader_bytes(*old(reader))[at],
                        reader_bytes(*old(reader))[at + 1],
                        true,
                    ),
                )
            },
    {
        let ghost start = reader_state(*reader);
        proof {
            lemma_read_fields(start);
            lemma_read_on_boundary(start);
        }
        let qr: bool = match reader.read_bit() {
            Ok(bit) => bit,
            Err(_) => { return Err(DnsError::UnexpectedEndOfBuffer); },
        };
        proof {
            lemma_read_bits_small(reader_state(*reader), 4);
        }
        let opcode: u64 = match reader.read_bits(4) {
            Ok(bits) => bits,
            Err(_) => { return Err(DnsError::UnexpectedEndOfBuffer); },
        };
        assert(opcode < 16) by (bit_vector)
            requires
                opcode >> 4u64 == 0,
        ;
        let authorihative_answer: bool = match reader.read_bit() {
            Ok(bit) => bit,
            Err(_) => { return Err(DnsError::UnexpectedEndOfBuffer); },
        };
        let truncate: bool = match reader.read_bit() {
            Ok(bit) => bit,
            Err(_) => { return Err(DnsError::UnexpectedEndOfBuffer); },
        };
        let recursion_desired: bool = match reader.read_bit() {
            Ok(bit) => bit,
            Err(_) => { return Err(DnsError::UnexpectedEndOfBuffer); },
        };
        let recursion_available: bool = match reader.read_bit() {
            Ok(bit) => bit,
            Err(_) => { return Err(DnsError::UnexpectedEndOfBuffer); },
        };
        match reader.read_bits(3) {
            Ok(_) => {},
            Err(_) => { return Err(DnsError::UnexpectedEndOfBuffer); },
        };
        proof {
            lemma_read_bits_small(reader_state(*reader), 4);
        }
        let response_code: u64 = match reader.read_bits(4) {
            Ok(bits) => bits,
            Err(_) => { return Err(DnsError::UnexpectedEndOfBuffer); },
        };
        assert(response_code < 16) by (bit_vector)
            requires
                response_code >> 4u64 == 0,
        ;
        Ok(
            Flags {
                qr,
                opcode: opcode as u8,
                authorihative_answer,
                truncate,
                recursion_desired,
                recursion_available,
                response_code: response_code as u8,
            },
        )
    }

    /// Writes the flags word in sixteen bits. Only the low four bits of the
    /// opcode and of the response code are written, and the reserved bits
    /// are written as zero. At the end of the buffer this appends the two
    /// bytes of the word.
    pub fn write_buf(&self, writer: &mut ByteBuffer)
        ensures
            buffer_state(*final(writer)) == self.write(buffer_state(*old(writer))),
            buffer_state(*old(writer)).at_end() ==> {
                &&& buffer_state(*final(writer)).at_end()
                &&& buffer_bytes(*final(writer)) == buffer_bytes(*old(writer)) + self.wire()
            },
    {
        proof {
            lemma_write_fields(*self, buffer_state(*writer));
            lemma_written_at_end(*self, buffer_state(*writer));
        }
        writer.write_bit(self.qr);
        writer.write_bits(self.opcode as u64, 4);
        writer.write_bit(self.authorihative_answer);
        writer.write_bit(self.truncate);
        writer.write_bit(self.recursion_desired);
        writer.write_bit(self.recursion_available);
        writer.write_bits(0, 3);
        writer.write_bits(self.response_code as u64, 4);
    }
}

/// What the reads of the single fields come to, one after the other: a bit,
/// four bits, four single bits, three bits that are passed over, four bits.
spec fn read_fields(c: BitCursor) -> (Option<Flags>, BitCursor) {
    match c.read_bit() {
        (None, s) => (None, s),
        (Some(qr), s) => match s.read_bits(4) {
            (None, s) => (None, s),
            (Some(opcode), s) => match s.read_bit() {
                (None, s) => (None, s),
                (Some(authorihative_answer), s) => match s.read_bit() {
                    (None, s) => (None, s),
                    (Some(truncate), s) => match s.read_bit() {
                        (None, s) => (None, s),
                        (Some(recursion_desired), s) => match s.read_bit() {
                            (None, s) => (None, s),
                            (Some(recursion_available), s) => match s.read_bits(3) {
                                (None, s) => (None, s),
                                (Some(_), s) => match s.read_bits(4) {
                                    (None, s) => (None, s),
                                    (Some(response_code), s) => (
                                        Some(
                                            Flags {
                                                qr,
                                                opcode: opcode as u8,
                                                authorihative_answer,
                                                truncate,
                                                recursion_desired,
                                                recursion_available,
                                                response_code: response_code as u8,
                                            },
                                        ),
                                        s,
                                    ),
                                },
                            },
                        },
                    },
                },
            },
        },
    }
}

/// What the writes of the single fields come to, one after the other.
spec fn write_fields(flags: Flags, c: BitCursor) -> BitCursor {
    c.write_bit(flags.qr).write_bits(flags.opcode as u64, 4).write_bit(
        flags.authorihative_answer,
    ).write_bit(flags.truncate).write_bit(flags.recursion_desired).write_bit(
        flags.recursion_available,
    ).write_bits(0, 3).write_bits(flags.response_code as u64, 4)
}

/// The number of a bit.
spec fn bit_number(bit: bool) -> u64 {
    if bit {
        1
    } else {
        0
    }
}

/// The fields of a word that was put together from them by shifts.
proof fn lemma_fields_of_word(
    qr: u64,
    opcode: u64,
    aa: u64,
    tc: u64,
    rd: u64,
    ra: u64,
    zero: u64,
    rcode: u64,
)
    by (bit_vector)
    requires
        qr <= 1,
        opcode >> 4u64 == 0,
        aa <= 1,
        tc <= 1,
        rd <= 1,
        ra <= 1,
        zero >> 3u64 == 0,
        rcode >> 4u64 == 0,
    ensures
        ({
            let low = (zero << 4u64) | rcode;
            let word = (qr << 15u64) | ((opcode << 11u64) | ((aa << 10u64) | ((tc << 9u64) | ((rd
                << 8u64) | ((ra << 7u64) | low)))));
            &&& word < 0x1_0000
            &&& opcode < 16
            &&& rcode < 16
            &&& (word / 0x8000 == 1) == (qr == 1)
            &&& word / 0x800 % 16 == opcode
            &&& (word / 0x400 % 2 == 1) == (aa == 1)
            &&& (word / 0x200 % 2 == 1) == (tc == 1)
            &&& (word / 0x100 % 2 == 1) == (rd == 1)
            &&& (word / 0x80 % 2 == 1) == (ra == 1)
            &&& word % 16 == rcode
        }),
{
}

/// Reading the fields one after the other is reading sixteen bits as a word.
proof fn lemma_read_fields(c: BitCursor)
    ensures
        read_fields(c) == Flags::read(c),
{
    let (qr, s1) = c.read_bit();
    let (opcode, s2) = s1.read_bits(4);
    let (aa, s3) = s2.read_bit();
    let (tc, s4) = s3.read_bit();
    let (rd, s5) = s4.read_bit();
    let (ra, s6) = s5.read_bit();
    let (zero, s7) = s6.read_bits(3);
    let (rcode, s8) = s7.read_bits(4);
    lemma_read_bits_split(c, 1, 15);
    lemma_read_bits_one(c);
    lemma_read_bits_split(s1, 4, 11);
    lemma_read_bits_split(s2, 1, 10);
    lemma_read_bits_one(s2);
    lemma_read_bits_split(s3, 1, 9);
    lemma_read_bits_one(s3);
    lemma_read_bits_split(s4, 1, 8);
    lemma_read_bits_one(s4);
    lemma_read_bits_split(s5, 1, 7);
    lemma_read_bits_one(s5);
    lemma_read_bits_split(s6, 3, 4);
    lemma_read_bits_small(s1, 4);
    lemma_read_bits_small(s6, 3);
    lemma_read_bits_small(s7, 4);
    if qr is Some && opcode is Some && aa is Some && tc is Some && rd is Some && ra is Some
        && zero is Some && rcode is Some {
        lemma_fields_of_word(
            bit_number(qr->Some_0),
            opcode->Some_0,
            bit_number(aa->Some_0),
            bit_number(tc->Some_0),
            bit_number(rd->Some_0),
            bit_number(ra->Some_0),
            zero->Some_0,
            rcode->Some_0,
        );
    }
}

/// The bits of the word of flags are the bits of its fields.
proof fn lemma_bits_of_word(
    word: u64,
    qr: bool,
    opcode: u64,
    aa: bool,
    tc: bool,
    rd: bool,
    ra: bool,
    rcode: u64,
)
    by (bit_vector)
    requires
        word == ((if qr { 0x8000u64 } else { 0u64 }) + 0x800u64 * (opcode % 16u64) + (if aa {
            0x400u64
        } else {
            0u64
        }) + (if tc { 0x200u64 } else { 0u64 }) + (if rd { 0x100u64 } else { 0u64 }) + (if ra {
            0x80u64
        } else {
            0u64
        }) + (rcode % 16u64)) as u64,
    ensures
        (((word >> 15u64) >> 0u64) & 1 != 0) == qr,
        ((word >> 11u64) >> 3u64) & 1 == (opcode >> 3u64) & 1,
        ((word >> 11u64) >> 2u64) & 1 == (opcode >> 2u64) & 1,
        ((word >> 11u64) >> 1u64) & 1 == (opcode >> 1u64) & 1,
        ((word >> 11u64) >> 0u64) & 1 == (opcode >> 0u64) & 1,
        (((word >> 10u64) >> 0u64) & 1 != 0) == aa,
        (((word >> 9u64) >> 0u64) & 1 != 0) == tc,
        (((word >> 8u64) >> 0u64) & 1 != 0) == rd,
        (((word >> 7u64) >> 0u64) & 1 != 0) == ra,
        ((word >> 4u64) >> 2u64) & 1 == (0u64 >> 2u64) & 1,
        ((word >> 4u64) >> 1u64) & 1 == (0u64 >> 1u64) & 1,
        ((word >> 4u64) >> 0u64) & 1 == (0u64 >> 0u64) & 1,
        (word >> 3u64) & 1 == (rcode >> 3u64) & 1,
        (word >> 2u64) & 1 == (rcode >> 2u64) & 1,
        (word >> 1u64) & 1 == (rcode >> 1u64) & 1,
        (word >> 0u64) & 1 == (rcode >> 0u64) & 1,
        (word >> 8u64) % 256 == word / 256,
        word < 0x1_0000,
{
}

/// Writing the fields one after the other is writing the word in sixteen
/// bits.
proof fn lemma_write_fields(flags: Flags, c: BitCursor)
    ensures
        write_fields(flags, c) == flags.write(c),
{
    let word = flags.word() as u64;
    lemma_bits_of_word(
        word,
        flags.qr,
        flags.opcode as u64,
        flags.authorihative_answer,
        flags.truncate,
        flags.recursion_desired,
        flags.recursion_available,
        flags.response_code as u64,
    );
    let d1 = c.write_bit(flags.qr);
    let d2 = d1.write_bits(flags.opcode as u64, 4);
    let d3 = d2.write_bit(flags.authorihative_answer);
    let d4 = d3.write_bit(flags.truncate);
    let d5 = d4.write_bit(flags.recursion_desired);
    let d6 = d5.write_bit(flags.recursion_available);
    let d7 = d6.write_bits(0, 3);
    lemma_write_bits_split(c, word, 1, 15);
    lemma_write_bits_one(c, word >> 15);
    assert(c.write_bits(word >> 15, 1) == d1);
    lemma_write_bits_split(d1, word, 4, 11);
    assert(d1.write_bits(word >> 11, 4) == d2) by {
        assert forall|i: nat| i < 4 implies value_bit(word >> 11, i) == value_bit(
            flags.opcode as u64,
            i,
        ) by {
            assert(i == 0 || i == 1 || i == 2 || i == 3);
        }
        lemma_write_bits_same(d1, word >> 11, flags.opcode as u64, 4);
    }
    lemma_write_bits_split(d2, word, 1, 10);
    lemma_write_bits_one(d2, word >> 10);
    assert(d2.write_bits(word >> 10, 1) == d3);
    lemma_write_bits_split(d3, word, 1, 9);
    lemma_write_bits_one(d3, word >> 9);
    assert(d3.write_bits(word >> 9, 1) == d4);
    lemma_write_bits_split(d4, word, 1, 8);
    lemma_write_bits_one(d4, word >> 8);
    assert(d4.write_bits(word >> 8, 1) == d5);
    lemma_write_bits_split(d5, word, 1, 7);
    lemma_write_bits_one(d5, word >> 7);
    assert(d5.write_bits(word >> 7, 1) == d6);
    lemma_write_bits_split(d6, word, 3, 4);
    assert(d6.write_bits(word >> 4, 3) == d7) by {
        assert forall|i: nat| i < 3 implies value_bit(word >> 4, i) == value_bit(0, i) by {
            assert(i == 0 || i == 1 || i == 2);
        }
        lemma_write_bits_same(d6, word >> 4, 0, 3);
    }
    assert(d7.write_bits(word, 4) == d7.write_bits(flags.response_code as u64, 4)) by {
        assert forall|i: nat| i < 4 implies value_bit(word, i) == value_bit(
            flags.response_code as u64,
            i,
        ) by {
            assert(i == 0 || i == 1 || i == 2 || i == 3);
        }
        lemma_write_bits_same(d7, word, flags.response_code as u64, 4);
    }
}

/// Two bytes shifted together are the word they stand for, most significant
/// byte first.
proof fn lemma_word_of_bytes(high: u8, low: u8)
    by (bit_vector)
    ensures
        ((high as u64) << 8u64) | (low as u64) == ((high as u64) * 256 + (low as u64)) as u64,
{
}

/// Reading the flags keeps the bytes and the byte order and does not move
/// the cursor back. On a byte boundary the flags are read from the next two
/// bytes, if they are there.
pub proof fn lemma_read_on_boundary(c: BitCursor)
    ensures
        Flags::read(c).1.bytes == c.bytes,
        Flags::read(c).1.big_endian == c.big_endian,
        Flags::read(c).1.at >= c.at,
        c.at >= 0 && c.at % 8 == 0 ==> Flags::read(c) == (if c.at / 8 + 2 <= c.bytes.len() {
            (
                Some(Flags::of_word(u16_of(c.bytes[c.at / 8], c.bytes[c.at / 8 + 1], true))),
                c.advanced(16),
            )
        } else {
            (None::<Flags>, Flags::read(c).1)
        }),
{
    lemma_read_bits_keeps(c, 16);
    if c.at >= 0 && c.at % 8 == 0 {
        let place = c.at / 8;
        lemma_read_bits_split(c, 8, 8);
        if place + 1 <= c.bytes.len() {
            lemma_read_bits_byte(c);
            let middle = c.advanced(8);
            if place + 2 <= c.bytes.len() {
                lemma_read_bits_byte(middle);
                lemma_word_of_bytes(c.bytes[place], c.bytes[place + 1]);
                assert(middle.advanced(8) == c.advanced(16));
            } else {
                lemma_read_bits_outside(middle, 8);
            }
        } else {
            lemma_read_bits_outside(c, 8);
        }
    }
}

/// Writing the flags keeps the byte order and moves the cursor by sixteen
/// bits. At the end of a buffer the flags are written as the two bytes of
/// their word, and the cursor stands at the end again.
pub proof fn lemma_written_at_end(flags: Flags, c: BitCursor)
    ensures
        flags.write(c).big_endian == c.big_endian,
        flags.write(c).at == c.at + 16,
        c.at_end() ==> flags.write(c).bytes == c.bytes + flags.wire() && flags.write(c).at_end(),
{
    let word = flags.word() as u64;
    lemma_write_bits_keeps(c, word, 16);
    if c.at_end() {
        lemma_bits_of_word(
            word,
            flags.qr,
            flags.opcode as u64,
            flags.authorihative_answer,
            flags.truncate,
            flags.recursion_desired,
            flags.recursion_available,
            flags.response_code as u64,
        );
        lemma_write_bits_split(c, word, 8, 8);
        lemma_write_bits_byte(c, word >> 8);
        let middle = c.write_bits(word >> 8, 8);
        lemma_write_bits_byte(middle, word);
        assert(c.bytes.push((word / 256) as u8).push((word % 256) as u8) =~= c.bytes
            + flags.wire());
    }
}

/// The fixed header of a message.
#[derive(Clone, Copy, Debug, PartialEq, Eq, Structural)]
pub struct DnsHeader {
    pub id: u16,
    pub flags: Flags,
    pub questions: u16,
    pub answers: u16,
    pub authorities: u16,
    pub additional: u16,
}

impl DnsHeader {
    /// The twelve bytes of the header on the wire: id, flags and the four
    /// counts, each most significant byte first.
    pub open spec fn wire(self) -> Seq<u8> {
        be16(self.id) + self.flags.wire() + be16(self.questions) + be16(self.answers) + be16(
            self.authorities,
        ) + be16(self.additional)
    }

    /// The header that stands at byte `at` of a buffer, if twelve bytes are
    /// there.
    pub open spec fn parse(bytes: Seq<u8>, at: int) -> Option<DnsHeader> {
        if 0 <= at && at + 12 <= bytes.len() {
            Some(
                DnsHeader {
                    id: u16_of(bytes[at], bytes[at + 1], true),
                    flags: Flags::of_word(u16_of(bytes[at + 2], bytes[at + 3], true)),
                    questions: u16_of(bytes[at + 4], bytes[at + 5], true),
                    answers: u16_of(bytes[at + 6], bytes[at + 7], true),
                    authorities: u16_of(bytes[at + 8], bytes[at + 9], true),
                    additional: u16_of(bytes[at + 10], bytes[at + 11], true),
                },
            )
        } else {
            None
        }
    }

    /// The header with id zero, all flags clear and all counts zero.
    pub open spec fn zero() -> DnsHeader {
        DnsHeader {
            id: 0,
            flags: Flags::clear(),
            questions: 0,
            answers: 0,
            authorities: 0,
            additional: 0,
        }
    }

    /// A header with id zero, all flags clear and all counts zero.
    pub fn new() -> (header: DnsHeader)
        ensures
            header == DnsHeader::zero(),
    {
        DnsHeader {
            id: 0,
            flags: Flags::new(),
            questions: 0,
            answers: 0,
            authorities: 0,
            additional: 0,
        }
    }

    /// Reads a header from the next byte boundary of a reader in network
    /// byte order. It fails where fewer than twelve bytes are left.
    pub fn read_buf(reader: &mut ByteReader) -> (res: Result<DnsHeader, DnsError>)
        requires
            reader_state(*old(reader)).network_order(),
        ensures
            reader_state(*final(reader)).network_order(),
            reader_bytes(*final(reader)) == reader_bytes(*old(reader)),
            res matches Ok(header) ==> {
                let start = reader_state(*old(reader)).flushed().at;
                &&& DnsHeader::parse(reader_bytes(*old(reader)), start / 8) == Some(header)
                &&& reader_cursor(*final(reader)) == start + 96
            },
            res matches Err(e) ==> {
                &&& e == DnsError::UnexpectedEndOfBuffer
                &&& DnsHeader::parse(
                    reader_bytes(*old(reader)),
                    reader_state(*old(reader)).flushed().at / 8,
                ) is None
            },
    {
        let id: u16 = match reader.read_u16() {
            Ok(value) => value,
            Err(_) => { return Err(DnsError::UnexpectedEndOfBuffer); },
        };
        proof {
            lemma_read_on_boundary(reader_state(*reader));
        }
        let flags: Flags = Flags::read_buf(reader)?;
        let questions: u16 = match reader.read_u16() {
            Ok(value) => value,
            Err(_) => { return Err(DnsError::UnexpectedEndOfBuffer); },
        };
        let answers: u16 = match reader.read_u16() {
            Ok(value) => value,
            Err(_) => { return Err(DnsError::UnexpectedEndOfBuffer); },
        };
        let authorities: u16 = match reader.read_u16() {
            Ok(value) => value,
            Err(_) => { return Err(DnsError::UnexpectedEndOfBuffer); },
        };
        let additional: u16 = match reader.read_u16() {
            Ok(value) => value,
            Err(_) => { return Err(DnsError::UnexpectedEndOfBuffer); },
        };
        Ok(DnsHeader { id, flags, questions, answers, authorities, additional })
    }

    /// Appends the twelve bytes of the header to a writer that stands at the
    /// end of its buffer and writes in network byte order.
    pub fn write_buf(&self, writer: &mut ByteBuffer)
        requires
            buffer_state(*old(writer)).appending(),
        ensures
            buffer_state(*final(writer)).appending(),
            buffer_bytes(*final(writer)) == buffer_bytes(*old(writer)) + self.wire(),
    {
        let ghost start = buffer_state(*writer);
        proof {
            lemma_write_bytes_appends(start, be16(self.id));
        }
        writer.write_u16(self.id);
        proof {
            lemma_written_at_end(self.flags, buffer_state(*writer));
        }
        self.flags.write_buf(writer);
        proof {
            lemma_write_bytes_appends(buffer_state(*writer), be16(self.questions));
        }
        writer.write_u16(self.questions);
        proof {
            lemma_write_bytes_appends(buffer_state(*writer), be16(self.answers));
        }
        writer.write_u16(self.answers);
        proof {
            lemma_write_bytes_appends(buffer_state(*writer), be16(self.authorities));
        }
        writer.write_u16(self.authorities);
        proof {
            lemma_write_bytes_appends(buffer_state(*writer), be16(self.additional));
        }
        writer.write_u16(self.additional);
        assert(buffer_bytes(*writer) =~= start.bytes + self.wire());
    }
}

/// Flags whose opcode and response code fit their four bits come back from
/// their word as they went into it.
pub proof fn lemma_flags_round_trip(flags: Flags)
    requires
        flags.fits(),
    ensures
        Flags::of_word(flags.word()) == flags,
{
    lemma_fields_of_sum(
        flags.word() as u64,
        flags.qr,
        flags.opcode as u64,
        flags.authorihative_answer,
        flags.truncate,
        flags.recursion_desired,
        flags.recursion_available,
        flags.response_code as u64,
    );
}

/// The fields of a word that was put together from them by weights.
proof fn lemma_fields_of_sum(
    word: u64,
    qr: bool,
    opcode: u64,
    aa: bool,
    tc: bool,
    rd: bool,
    ra: bool,
    rcode: u64,
)
    by (bit_vector)
    requires
        opcode < 16,
        rcode < 16,
        word == ((if qr { 0x8000u64 } else { 0u64 }) + 0x800u64 * (opcode % 16u64) + (if aa {
            0x400u64
        } else {
            0u64
        }) + (if tc { 0x200u64 } else { 0u64 }) + (if rd { 0x100u64 } else { 0u64 }) + (if ra {
            0x80u64
        } else {
            0u64
        }) + (rcode % 16u64)) as u64,
    ensures
        (word / 0x8000 == 1) == qr,
        word / 0x800 % 16 == opcode,
        (word / 0x400 % 2 == 1) == aa,
        (word / 0x200 % 2 == 1) == tc,
        (word / 0x100 % 2 == 1) == rd,
        (word / 0x80 % 2 == 1) == ra,
        word % 16 == rcode,
{
}

/// A header on the wire has twelve bytes.
pub proof fn lemma_header_wire_len(header: DnsHeader)
    ensures
        header.wire().len() == 12,
{
}

/// A header whose flags fit their bits is read back, from wherever its
/// twelve bytes stand in a buffer, as it was written.
pub proof fn lemma_header_round_trip(header: DnsHeader, before: Seq<u8>, after: Seq<u8>)
    requires
        header.flags.fits(),
    ensures
        DnsHeader::parse(before + header.wire() + after, before.len() as int) == Some(header),
{
    lemma_flags_round_trip(header.flags);
    let bytes = before + header.wire() + after;
    let at = before.len() as int;
    assert(header.wire().len() == 12);
    assert(bytes.subrange(at, at + 12) =~= header.wire());
    assert(forall|i: int| 0 <= i < 12 ==> bytes[at + i] == header.wire()[i]);
}

} // verus!
