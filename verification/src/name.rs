//! Domain names on the wire: a run of labels, each a length byte and that
//! many bytes, closed by a zero length byte. Compression pointers are not
//! known here: a length byte is a length, whatever its high bits.

use vstd::prelude::*;
use vstd::string::StringExecFns;
use vstd::utf8::{decode_utf8, encode_utf8, encode_utf8_decode_utf8, valid_utf8};
use bytebuffer::ByteBuffer;
use bytebuffer::ByteReader;
use crate::bits::write_bytes;
use crate::cursor::{
    buffer_big_endian, buffer_bytes, buffer_state, reader_big_endian,
    reader_bytes, reader_cursor, reader_state,
};
use crate::error::DnsError;

verus! {

#[verifier::external_type_specification]
#[verifier::external_body]
pub struct ExUtf8Error(std::str::Utf8Error);

/// `std::str::from_utf8`: succeeds on the bytes that are well-formed UTF-8,
/// and the text it returns is made of those bytes.
pub assume_specification[ std::str::from_utf8 ](v: &[u8]) -> (res: Result<
    &str,
    std::str::Utf8Error,
>)
    ensures
        res is Ok <==> valid_utf8(v@),
        res matches Ok(text) ==> encode_utf8(text@) == v@,
;

/// The byte that parts the labels of a name written as text.
pub const DOT: u8 = 0x2E;

/// The place of the first dot in a name, or the name's length if it has none.
pub open spec fn first_dot(name: Seq<u8>) -> nat
    decreases name.len(),
{
    if name.len() == 0 || name[0] == DOT {
        0
    } else {
        1 + first_dot(name.drop_first())
    }
}

/// A label on the wire: its length in one byte, then its bytes. A length
/// over 255 does not fit the byte and is cut down to its low eight bits.
pub open spec fn label_wire(label: Seq<u8>) -> Seq<u8> {
    seq![(label.len() % 256) as u8] + label
}

/// A dotted name on the wire: every run of bytes between dots as a label,
/// empty runs too, and a zero byte after the last.
pub open spec fn name_wire(name: Seq<u8>) -> Seq<u8>
    decreases name.len(),
{
    let dot = first_dot(name) as int;
    if 0 <= dot < name.len() {
        label_wire(name.take(dot)) + name_wire(name.skip(dot + 1))
    } else {
        label_wire(name) + seq![0u8]
    }
}

/// The labels that stand at byte `at` of a buffer, as text, and the place
/// after the zero byte that closes them. The first thing that is wrong decides
/// the error: a length byte or label bytes that are not there, or label bytes
/// that are not UTF-8.
pub open spec fn parse_name(bytes: Seq<u8>, at: int) -> Result<(Seq<Seq<char>>, int), DnsError>
    decreases bytes.len() - at,
{
    if at < 0 || at >= bytes.len() {
        Err(DnsError::UnexpectedEndOfBuffer)
    } else if bytes[at] == 0 {
        Ok((Seq::empty(), at + 1))
    } else {
        let end = at + 1 + bytes[at];
        if end > bytes.len() {
            Err(DnsError::UnexpectedEndOfBuffer)
        } else if !valid_utf8(bytes.subrange(at + 1, end)) {
            Err(DnsError::InvalidLabelEncoding)
        } else {
            match parse_name(bytes, end) {
                Ok((rest, next)) => Ok(
                    (seq![decode_utf8(bytes.subrange(at + 1, end))] + rest, next),
                ),
                Err(e) => Err(e),
            }
        }
    }
}

/// Labels joined into one text, a dot between each two.
pub open spec fn dotted(labels: Seq<Seq<char>>) -> Seq<char>
    decreases labels.len(),
{
    if labels.len() == 0 {
        Seq::empty()
    } else if labels.len() == 1 {
        labels[0]
    } else {
        dotted(labels.drop_last()) + seq!['.'] + labels.last()
    }
}

/// The first dot of a name is where no byte before is a dot and the byte
/// itself is one, or the name ends.
pub proof fn lemma_first_dot(name: Seq<u8>, dot: int)
    requires
        0 <= dot <= name.len(),
        forall|j: int| 0 <= j < dot ==> name[j] != DOT,
        dot < name.len() ==> name[dot] == DOT,
    ensures
        first_dot(name) == dot,
    decreases name.len(),
{
    if dot > 0 {
        let rest = name.drop_first();
        assert forall|j: int| 0 <= j < dot - 1 implies rest[j] != DOT by {
            assert(rest[j] == name[j + 1]);
        }
        lemma_first_dot(rest, dot - 1);
    }
}

/// The place at which a name that parses ends lies inside the buffer, past
/// where it began.
pub proof fn lemma_parse_name_bounds(bytes: Seq<u8>, at: int)
    ensures
        parse_name(bytes, at) matches Ok((_, next)) ==> at < next <= bytes.len(),
    decreases bytes.len() - at,
{
    if 0 <= at < bytes.len() && bytes[at] != 0 && at + 1 + bytes[at] <= bytes.len() {
        lemma_parse_name_bounds(bytes, at + 1 + bytes[at]);
    }
}

/// A name on the wire is two bytes longer than the name as text: a length
/// byte in place of each dot, one before the first label, and the zero byte.
pub proof fn lemma_name_wire_len(name: Seq<u8>)
    ensures
        name_wire(name).len() == name.len() + 2,
    decreases name.len(),
{
    let dot = first_dot(name) as int;
    if 0 <= dot < name.len() {
        lemma_name_wire_len(name.skip(dot + 1));
    }
}

/// `None` for zero, the byte itself otherwise.
pub fn none_if_zero(byte: u8) -> (res: Option<u8>)
    ensures
        res == (if byte == 0 {
            None
        } else {
            Some(byte)
        }),
{
    match byte {
        0 => None,
        size => Some(size),
    }
}

/// Appends the bytes `from..to` of a slice as one label.
fn push_label(wire: &mut Vec<u8>, name: &[u8], from: usize, to: usize)
    requires
        from <= to <= name@.len(),
    ensures
        final(wire)@ == old(wire)@ + label_wire(name@.subrange(from as int, to as int)),
{
    let length: usize = to - from;
    wire.push((length % 256) as u8);
    let mut at: usize = from;
    while at < to
        invariant
            from <= at <= to <= name@.len(),
            wire@ == old(wire)@ + seq![((to - from) % 256) as u8] + name@.subrange(
                from as int,
                at as int,
            ),
        decreases to - at,
    {
        wire.push(name[at]);
        at += 1;
    }
    assert(wire@ == old(wire)@ + label_wire(name@.subrange(from as int, to as int)));
}

/// The wire form of a dotted name.
pub fn encode_name(name: &[u8]) -> (wire: Vec<u8>)
    ensures
        wire@ == name_wire(name@),
{
    let mut wire: Vec<u8> = Vec::new();
    let mut start: usize = 0;
    let mut at: usize = 0;
    assert(name@.skip(0) == name@);
    while at < name.len()
        invariant
            start <= at <= name@.len(),
            forall|j: int| start <= j < at ==> name@[j] != DOT,
            wire@ + name_wire(name@.skip(start as int)) == name_wire(name@),
        decreases name@.len() - at,
    {
        if name[at] == DOT {
            proof {
                let tail = name@.skip(start as int);
                lemma_first_dot(tail, at - start);
                assert(tail.take(at - start) == name@.subrange(start as int, at as int));
                assert(tail.skip(at - start + 1) == name@.skip(at + 1));
            }
            push_label(&mut wire, name, start, at);
            start = at + 1;
        }
        at += 1;
    }
    proof {
        let tail = name@.skip(start as int);
        lemma_first_dot(tail, at - start);
        assert(tail == name@.subrange(start as int, at as int));
    }
    push_label(&mut wire, name, start, name.len());
    wire.push(0);
    wire
}

/// Appends the wire form of a name to a writer that stands at the end of its
/// buffer.
pub fn write_name(writer: &mut ByteBuffer, name: &str)
    requires
        buffer_state(*old(writer)).at_end(),
    ensures
        buffer_state(*final(writer)).at_end(),
        buffer_big_endian(*final(writer)) == buffer_big_endian(*old(writer)),
        buffer_bytes(*final(writer)) == buffer_bytes(*old(writer)) + name_wire(
            encode_utf8(name@),
        ),
{
    let wire: Vec<u8> = encode_name(name.as_bytes());
    write_bytes(writer, wire.as_slice());
}

/// Reads a name from the next byte boundary of a reader: labels up to the
/// zero byte that closes them, joined by dots.
pub fn read_name(reader: &mut ByteReader) -> (res: Result<String, DnsError>)
    ensures
        reader_big_endian(*final(reader)) == reader_big_endian(*old(reader)),
        reader_bytes(*final(reader)) == reader_bytes(*old(reader)),
        match res {
            Ok(name) => {
                &&& parse_name(
                    reader_bytes(*old(reader)),
                    reader_state(*old(reader)).flushed().at / 8,
                ) matches Ok((labels, next))
                &&& name@ == dotted(labels)
                &&& reader_cursor(*final(reader)) == 8 * next
            },
            Err(e) => parse_name(
                reader_bytes(*old(reader)),
                reader_state(*old(reader)).flushed().at / 8,
            ) == Err::<(Seq<Seq<char>>, int), DnsError>(e),
        },
{
    let ghost bytes = reader_bytes(*reader);
    let ghost start = reader_state(*reader).flushed().at / 8;
    let ghost mut labels: Seq<Seq<char>> = Seq::empty();
    let ghost mut at: int = start;
    let mut name: String = String::new();
    let mut first: bool = true;
    loop
        invariant
            bytes == reader_bytes(*old(reader)),
            start == reader_state(*old(reader)).flushed().at / 8,
            reader_big_endian(*reader) == reader_big_endian(*old(reader)),
            reader_bytes(*reader) == bytes,
            reader_state(*reader).flushed().at == 8 * at,
            0 <= at,
            name@ == dotted(labels),
            first == (labels.len() == 0),
            match parse_name(bytes, at) {
                Ok((rest, next)) => parse_name(bytes, start) == Ok::<
                    (Seq<Seq<char>>, int),
                    DnsError,
                >((labels + rest, next)),
                Err(e) => parse_name(bytes, start) == Err::<(Seq<Seq<char>>, int), DnsError>(e),
            },
        decreases bytes.len() - at,
    {
        let byte: u8 = match reader.read_u8() {
            Ok(value) => value,
            Err(_) => { return Err(DnsError::UnexpectedEndOfBuffer); },
        };
        let size: u8 = match none_if_zero(byte) {
            Some(size) => size,
            None => {
                assert(labels + Seq::<Seq<char>>::empty() == labels);
                return Ok(name);
            },
        };
        let raw: Vec<u8> = match reader.read_bytes(size as usize) {
            Ok(raw) => raw,
            Err(_) => { return Err(DnsError::UnexpectedEndOfBuffer); },
        };
        let text: &str = match std::str::from_utf8(raw.as_slice()) {
            Ok(text) => text,
            Err(_) => { return Err(DnsError::InvalidLabelEncoding); },
        };
        proof {
            encode_utf8_decode_utf8(text@);
            reveal_strlit(".");
        }
        if !first {
            name.append(".");
        }
        name.append(text);
        first = false;
        proof {
            let end = at + 1 + size;
            let label = decode_utf8(bytes.subrange(at + 1, end));
            assert(text@ == label);
            assert(labels.push(label).drop_last() == labels);
            match parse_name(bytes, end) {
                Ok((rest, next)) => {
                    assert(labels + (seq![label] + rest) == labels.push(label) + rest);
                },
                Err(e) => {},
            }
            labels = labels.push(label);
            at = end;
        }
    }
}

} // verus!
