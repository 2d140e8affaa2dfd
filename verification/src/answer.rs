//! Answers: the records a response carries.

use vstd::prelude::*;
use vstd::utf8::encode_utf8;
use bytebuffer::ByteBuffer;
use crate::bits::{lemma_write_bytes_appends, write_bytes};
use crate::cursor::{be16, be32, buffer_bytes, buffer_state};
use crate::name::{name_wire, write_name};
use crate::types::{QClass, QType};

verus! {

/// One entry of the answer section.
#[derive(Clone, Debug, PartialEq, Eq)]
pub struct Answer {
    pub name: String,
    pub qtype: QType,
    pub qclass: QClass,
    pub ttl: u32,
    pub length: u16,
    pub data: Vec<u8>,
}

/// An answer as the contracts see it: the name as its characters, the data
/// as its bytes.
pub struct AnswerView {
    pub name: Seq<char>,
    pub qtype: QType,
    pub qclass: QClass,
    pub ttl: u32,
    pub length: u16,
    pub data: Seq<u8>,
}

impl View for Answer {
    type V = AnswerView;

    open spec fn view(&self) -> AnswerView {
        AnswerView {
            name: self.name@,
            qtype: self.qtype,
            qclass: self.qclass,
            ttl: self.ttl,
            length: self.length,
            data: self.data@,
        }
    }
}

impl AnswerView {
    /// The answer on the wire: the name as labels, the codes of type and
    /// class, the time to live in four bytes, the declared length in two, and
    /// the data.
    pub open spec fn wire(self) -> Seq<u8> {
        name_wire(encode_utf8(self.name)) + be16(self.qtype.code()) + be16(self.qclass.code())
            + be32(self.ttl) + be16(self.length) + self.data
    }
}

impl Answer {
    /// Appends the answer to a writer that stands at the end of its buffer.
    /// The length field is written as it is declared, whatever the data holds.
    pub fn write_buf(&self, writer: &mut ByteBuffer)
        requires
            buffer_state(*old(writer)).appending(),
        ensures
            buffer_state(*final(writer)).appending(),
            buffer_bytes(*final(writer)) == buffer_bytes(*old(writer)) + self@.wire(),
    {
        write_name(writer, self.name.as_str());
        proof {
            lemma_write_bytes_appends(buffer_state(*writer), be16(self.qtype.code()));
        }
        writer.write_u16(self.qtype.to_u16());
        proof {
            lemma_write_bytes_appends(buffer_state(*writer), be16(self.qclass.code()));
        }
        writer.write_u16(self.qclass.to_u16());
        proof {
            lemma_write_bytes_appends(buffer_state(*writer), be32(self.ttl));
        }
        writer.write_u32(self.ttl);
        proof {
            lemma_write_bytes_appends(buffer_state(*writer), be16(self.length));
        }
        writer.write_u16(self.length);
        write_bytes(writer, self.data.as_slice());
        assert(buffer_bytes(*writer) == buffer_bytes(*old(writer)) + self@.wire());
    }
}

} // verus!
