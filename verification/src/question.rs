//! Questions: a name, a record type and a class.

use vstd::prelude::*;
use vstd::utf8::encode_utf8;
use bytebuffer::ByteBuffer;
use bytebuffer::ByteReader;
use crate::bits::lemma_write_bytes_appends;
use crate::cursor::{
    be16, buffer_bytes, buffer_state, reader_bytes, reader_cursor,
    reader_state, u16_of,
};
use crate::error::DnsError;
use crate::name::{
    dotted, lemma_parse_name_bounds, name_wire, parse_name, read_name, write_name,
};
use crate::types::{QClass, QType};

verus! {

/// One entry of the question section.
#[derive(Clone, Debug, PartialEq, Eq)]
pub struct Question {
    pub qname: String,
    pub qtype: QType,
    pub qclass: QClass,
}

/// A question as the contracts see it: the name as its characters.
pub struct QuestionView {
    pub qname: Seq<char>,
    pub qtype: QType,
    pub qclass: QClass,
}

impl View for Question {
    type V = QuestionView;

    open spec fn view(&self) -> QuestionView {
        QuestionView { qname: self.qname@, qtype: self.qtype, qclass: self.qclass }
    }
}

impl QuestionView {
    /// The question on the wire: the name as labels, then the codes of type
    /// and class, two bytes each.
    pub open spec fn wire(self) -> Seq<u8> {
        name_wire(encode_utf8(self.qname)) + be16(self.qtype.code()) + be16(self.qclass.code())
    }
}

/// The question that stands at byte `at` of a buffer, and the place after it.
/// The name is read first, then the type, then the class; the first of them
/// that is cut short or not known decides the error.
pub open spec fn parse_question(bytes: Seq<u8>, at: int) -> Result<(QuestionView, int), DnsError> {
    match parse_name(bytes, at) {
        Err(e) => Err(e),
        Ok((labels, next)) => if next + 2 > bytes.len() {
            Err(DnsError::UnexpectedEndOfBuffer)
        } else {
            match QType::of_code(u16_of(bytes[next], bytes[next + 1], true)) {
                Err(e) => Err(e),
                Ok(qtype) => if next + 4 > bytes.len() {
                    Err(DnsError::UnexpectedEndOfBuffer)
                } else {
                    match QClass::of_code(u16_of(bytes[next + 2], bytes[next + 3], true)) {
                        Err(e) => Err(e),
                        Ok(qclass) => Ok(
                            (QuestionView { qname: dotted(labels), qtype, qclass }, next + 4),
                        ),
                    }
                },
            }
        },
    }
}

impl Question {
    /// A question with an empty name and the codes of type and class zero.
    pub fn new() -> (question: Question)
        ensures
            question@ == (QuestionView {
                qname: Seq::empty(),
                qtype: QType::Unknown(0),
                qclass: QClass::Unknown(0),
            }),
    {
        Question { qname: String::new(), qtype: QType::Unknown(0), qclass: QClass::Unknown(0) }
    }

    /// Reads a question from the next byte boundary of a reader in network
    /// byte order.
    pub fn read_buf(reader: &mut ByteReader) -> (res: Result<Question, DnsError>)
        requires
            reader_state(*old(reader)).network_order(),
        ensures
            reader_state(*final(reader)).network_order(),
            reader_bytes(*final(reader)) == reader_bytes(*old(reader)),
            match res {
                Ok(question) => {
                    &&& parse_question(
                        reader_bytes(*old(reader)),
                        reader_state(*old(reader)).flushed().at / 8,
                    ) matches Ok((parsed, next))
                    &&& question@ == parsed
                    &&& reader_cursor(*final(reader)) == 8 * next
                },
                Err(e) => parse_question(
                    reader_bytes(*old(reader)),
                    reader_state(*old(reader)).flushed().at / 8,
                ) == Err::<(QuestionView, int), DnsError>(e),
            },
    {
        proof {
            lemma_parse_name_bounds(
                reader_bytes(*reader),
                reader_state(*reader).flushed().at / 8,
            );
        }
        let qname: String = read_name(reader)?;
        let type_code: u16 = match reader.read_u16() {
            Ok(value) => value,
            Err(_) => { return Err(DnsError::UnexpectedEndOfBuffer); },
        };
        let qtype: QType = QType::from_u16(type_code)?;
        let class_code: u16 = match reader.read_u16() {
            Ok(value) => value,
            Err(_) => { return Err(DnsError::UnexpectedEndOfBuffer); },
        };
        let qclass: QClass = QClass::from_u16(class_code)?;
        Ok(Question { qname, qtype, qclass })
    }

    /// Appends the question to a writer that stands at the end of its buffer.
    pub fn write_buf(&self, writer: &mut ByteBuffer)
        requires
            buffer_state(*old(writer)).appending(),
        ensures
            buffer_state(*final(writer)).appending(),
            buffer_bytes(*final(writer)) == buffer_bytes(*old(writer)) + self@.wire(),
    {
        write_name(writer, self.qname.as_str());
        proof {
            lemma_write_bytes_appends(buffer_state(*writer), be16(self.qtype.code()));
        }
        writer.write_u16(self.qtype.to_u16());
        proof {
            lemma_write_bytes_appends(buffer_state(*writer), be16(self.qclass.code()));
        }
        writer.write_u16(self.qclass.to_u16());
        assert(buffer_bytes(*writer) == buffer_bytes(*old(writer)) + self@.wire());
    }
}

} // verus!
