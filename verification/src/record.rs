//! Zone records: what the responder was loaded with, and the payload that an
//! answer made from a record carries.

use vstd::prelude::*;
use vstd::utf8::encode_utf8;
use crate::answer::{Answer, AnswerView};
use crate::error::DnsError;
use crate::name::{
    encode_name, first_dot, lemma_first_dot, lemma_name_wire_len, name_wire, DOT,
};
use crate::question::{Question, QuestionView};
use crate::types::{QClass, QType};

verus! {

/// A record of the zone: a name, its class and type, and the value as text.
#[derive(Clone, Debug, PartialEq, Eq)]
pub struct DnsRecord {
    pub qname: String,
    pub qclass: QClass,
    pub qtype: QType,
    entry: String,
}

/// A record as the contracts see it: name and value as their characters.
pub struct DnsRecordView {
    pub qname: Seq<char>,
    pub qclass: QClass,
    pub qtype: QType,
    pub entry: Seq<char>,
}

/// The runs of bytes between the dots of a text, empty runs too: always at
/// least one.
pub open spec fn dotted_fields(text: Seq<u8>) -> Seq<Seq<u8>>
    decreases text.len(),
{
    let dot = first_dot(text) as int;
    if 0 <= dot < text.len() {
        seq![text.take(dot)] + dotted_fields(text.skip(dot + 1))
    } else {
        seq![text]
    }
}

/// Every byte is an ASCII decimal digit.
pub open spec fn all_digits(text: Seq<u8>) -> bool {
    forall|i: int| 0 <= i < text.len() ==> 0x30 <= #[trigger] text[i] <= 0x39
}

/// The number that a run of decimal digits writes.
pub open spec fn digits_value(text: Seq<u8>) -> nat
    decreases text.len(),
{
    if text.len() == 0 {
        0
    } else {
        10 * digits_value(text.drop_last()) + (text.last() - 0x30) as nat
    }
}

/// The octet that a field writes in decimal: one digit at least, digits only,
/// and a value of at most 255.
pub open spec fn octet(field: Seq<u8>) -> Option<u8> {
    if field.len() > 0 && all_digits(field) && digits_value(field) <= 255 {
        Some(digits_value(field) as u8)
    } else {
        None
    }
}

/// The four bytes of an address written as four decimal octets with dots
/// between them; `None` for any other text.
pub open spec fn address(text: Seq<u8>) -> Option<Seq<u8>> {
    let fields = dotted_fields(text);
    if fields.len() == 4 && (forall|i: int| 0 <= i < 4 ==> (#[trigger] octet(fields[i])) is Some) {
        Some(Seq::new(4, |i: int| octet(fields[i])->Some_0))
    } else {
        None
    }
}

impl DnsRecordView {
    /// The payload of an answer made from the record: the four bytes of the
    /// address for type A, the value as a name on the wire for any other type.
    pub open spec fn data(self) -> Result<Seq<u8>, DnsError> {
        if self.qtype == QType::A {
            match address(encode_utf8(self.entry)) {
                Some(bytes) => Ok(bytes),
                None => Err(DnsError::MalformedAddress),
            }
        } else {
            Ok(name_wire(encode_utf8(self.entry)))
        }
    }

    /// The number of bytes of the payload: four for type A, the length of the
    /// value as a name on the wire for any other type.
    pub open spec fn length(self) -> nat {
        if self.qtype == QType::A {
            4
        } else {
            name_wire(encode_utf8(self.entry)).len()
        }
    }

    /// The record answers the question: type, class and name are the same,
    /// character for character.
    pub open spec fn matches(self, question: QuestionView) -> bool {
        self.qtype == question.qtype && self.qclass == question.qclass && self.qname
            == question.qname
    }

    /// The answer made from the record: its name, class and type, sixty
    /// seconds to live, the payload and its length in sixteen bits.
    pub open spec fn answer(self) -> Result<AnswerView, DnsError> {
        match self.data() {
            Ok(data) => Ok(
                AnswerView {
                    name: self.qname,
                    qtype: self.qtype,
                    qclass: self.qclass,
                    ttl: 60,
                    length: (self.length() % 0x1_0000) as u16,
                    data,
                },
            ),
            Err(e) => Err(e),
        }
    }
}

impl View for DnsRecord {
    type V = DnsRecordView;

    closed spec fn view(&self) -> DnsRecordView {
        DnsRecordView {
            qname: self.qname@,
            qclass: self.qclass,
            qtype: self.qtype,
            entry: self.entry@,
        }
    }
}

/// A number written in digits is at least the number its digits but the last
/// write.
proof fn lemma_digits_grow(text: Seq<u8>, k: int)
    requires
        0 <= k <= text.len(),
        all_digits(text),
    ensures
        digits_value(text.take(k)) <= digits_value(text),
    decreases text.len() - k,
{
    if k < text.len() {
        let head = text.drop_last();
        assert(all_digits(head)) by {
            assert forall|i: int| 0 <= i < head.len() implies 0x30 <= #[trigger] head[i]
                <= 0x39 by {
                assert(head[i] == text[i]);
            }
        }
        lemma_digits_grow(head, k);
        assert(head.take(k) == text.take(k));
    } else {
        assert(text.take(k) == text);
    }
}

/// The octet that the bytes `from..to` of a text write in decimal.
fn parse_octet(text: &[u8], from: usize, to: usize) -> (res: Option<u8>)
    requires
        from <= to <= text@.len(),
    ensures
        res == octet(text@.subrange(from as int, to as int)),
{
    let ghost field = text@.subrange(from as int, to as int);
    if from == to {
        return None;
    }
    let mut value: u16 = 0;
    let mut at: usize = from;
    while at < to
        invariant
            from <= at <= to <= text@.len(),
            field == text@.subrange(from as int, to as int),
            all_digits(field.take(at - from)),
            value == digits_value(field.take(at - from)),
            value <= 255,
        decreases to - at,
    {
        let byte: u8 = text[at];
        if byte < 0x30 || byte > 0x39 {
            assert(field[at - from] == byte);
            return None;
        }
        let ghost before = field.take(at - from);
        let ghost now = field.take(at - from + 1);
        proof {
            assert(now.drop_last() == before);
            assert(now.last() == byte);
            assert forall|i: int| 0 <= i < now.len() implies 0x30 <= #[trigger] now[i] <= 0x39 by {
                if i < before.len() {
                    assert(now[i] == before[i]);
                }
            }
        }
        let next: u16 = value * 10 + (byte - 0x30) as u16;
        if next > 255 {
            proof {
                if all_digits(field) {
                    lemma_digits_grow(field, at - from + 1);
                }
            }
            return None;
        }
        value = next;
        at += 1;
    }
    assert(field.take(at - from) == field);
    Some(value as u8)
}

/// The four bytes of an address written as text.
pub fn parse_address(text: &[u8]) -> (res: Option<Vec<u8>>)
    ensures
        res matches Some(bytes) ==> address(text@) == Some(bytes@),
        res is None ==> address(text@) is None,
{
    let mut bytes: Vec<u8> = Vec::new();
    let ghost mut seen: Seq<Seq<u8>> = Seq::empty();
    let mut start: usize = 0;
    let mut at: usize = 0;
    assert(text@.skip(0) == text@);
    while at < text.len()
        invariant
            start <= at <= text@.len(),
            forall|j: int| start <= j < at ==> text@[j] != DOT,
            seen + dotted_fields(text@.skip(start as int)) == dotted_fields(text@),
            bytes@.len() == seen.len(),
            forall|i: int| 0 <= i < seen.len() ==> octet(#[trigger] seen[i]) == Some(bytes@[i]),
        decreases text@.len() - at,
    {
        if text[at] == DOT {
            let ghost tail = text@.skip(start as int);
            let ghost field = text@.subrange(start as int, at as int);
            proof {
                lemma_first_dot(tail, at - start);
                assert(tail.take(at - start) == field);
                assert(tail.skip(at - start + 1) == text@.skip(at + 1));
                assert(seen + (seq![field] + dotted_fields(text@.skip(at + 1))) == seen.push(
                    field,
                ) + dotted_fields(text@.skip(at + 1)));
            }
            match parse_octet(text, start, at) {
                Some(value) => {
                    bytes.push(value);
                },
                None => {
                    proof {
                        let fields = dotted_fields(text@);
                        assert(fields[seen.len() as int] == field);
                    }
                    return None;
                },
            }
            proof {
                seen = seen.push(field);
            }
            start = at + 1;
        }
        at += 1;
    }
    let ghost tail = text@.skip(start as int);
    proof {
        lemma_first_dot(tail, at - start);
        assert(tail == text@.subrange(start as int, at as int));
        assert(dotted_fields(text@) == seen.push(tail));
    }
    match parse_octet(text, start, text.len()) {
        Some(value) => {
            bytes.push(value);
        },
        None => {
            proof {
                assert(dotted_fields(text@)[seen.len() as int] == tail);
            }
            return None;
        },
    }
    if bytes.len() != 4 {
        return None;
    }
    proof {
        let fields = dotted_fields(text@);
        assert forall|i: int| 0 <= i < 4 implies (#[trigger] octet(fields[i])) is Some by {
            if i < seen.len() {
                assert(fields[i] == seen[i]);
            }
        }
        assert(bytes@ == Seq::new(4, |i: int| octet(fields[i])->Some_0));
    }
    Some(bytes)
}

/// The length of a record is the number of bytes of its payload, where the
/// payload can be made.
pub proof fn lemma_payload_length(record: DnsRecordView)
    ensures
        record.data() matches Ok(data) ==> data.len() == record.length(),
        record.qtype != QType::A ==> record.length() == encode_utf8(record.entry).len() + 2,
{
    lemma_name_wire_len(encode_utf8(record.entry));
}

impl DnsRecord {
    /// A record from the four fields of a line of the record source. Class and
    /// type have to be among the known names.
    pub fn new(qname: &str, qclass: &str, qtype: &str, entry: &str) -> (record: DnsRecord)
        requires
            QClass::of_name(qclass@) is Some,
            QType::of_name(qtype@) is Some,
        ensures
            record@ == (DnsRecordView {
                qname: qname@,
                qclass: QClass::of_name(qclass@)->Some_0,
                qtype: QType::of_name(qtype@)->Some_0,
                entry: entry@,
            }),
    {
        DnsRecord {
            qname: qname.to_owned(),
            qclass: match QClass::from_name(qclass) {
                Some(qclass) => qclass,
                None => vstd::pervasive::unreached(),
            },
            qtype: match QType::from_name(qtype) {
                Some(qtype) => qtype,
                None => vstd::pervasive::unreached(),
            },
            entry: entry.to_owned(),
        }
    }

    /// A record from the four fields of a line of the record source, if its
    /// class and type are among the known names.
    pub fn try_new(qname: &str, qclass: &str, qtype: &str, entry: &str) -> (res: Option<DnsRecord>)
        ensures
            res is Some <==> QClass::of_name(qclass@) is Some && QType::of_name(qtype@) is Some,
            res matches Some(record) ==> record@ == (DnsRecordView {
                qname: qname@,
                qclass: QClass::of_name(qclass@)->Some_0,
                qtype: QType::of_name(qtype@)->Some_0,
                entry: entry@,
            }),
    {
        if QClass::from_name(qclass).is_some() && QType::from_name(qtype).is_some() {
            Some(DnsRecord::new(qname, qclass, qtype, entry))
        } else {
            None
        }
    }

    /// The number of bytes of the payload that `data` returns where it
    /// succeeds; four for any record of type A.
    pub fn length(&self) -> (len: usize)
        ensures
            len == self@.length(),
    {
        if self.qtype == QType::A {
            4
        } else {
            encode_name(self.entry.as_str().as_bytes()).len()
        }
    }

    /// Whether the record answers a question.
    pub fn matches(&self, question: &Question) -> (res: bool)
        ensures
            res == self@.matches(question@),
    {
        self.qtype == question.qtype && self.qclass == question.qclass && self.qname
            == question.qname
    }

    /// The answer made from the record. It fails where the payload cannot be
    /// made.
    pub fn answer(&self) -> (res: Result<Answer, DnsError>)
        ensures
            match res {
                Ok(answer) => self@.answer() == Ok::<AnswerView, DnsError>(answer@),
                Err(e) => self@.answer() == Err::<AnswerView, DnsError>(e),
            },
    {
        let data: Vec<u8> = self.data()?;
        let length: usize = self.length();
        Ok(
            Answer {
                name: self.qname.clone(),
                qtype: self.qtype,
                qclass: self.qclass,
                ttl: 60,
                length: (length % 0x1_0000) as u16,
                data,
            },
        )
    }

    /// The payload of an answer made from the record. It fails for a record
    /// of type A whose value is not an address.
    pub fn data(&self) -> (res: Result<Vec<u8>, DnsError>)
        ensures
            match res {
                Ok(bytes) => self@.data() == Ok::<Seq<u8>, DnsError>(bytes@),
                Err(e) => self@.data() == Err::<Seq<u8>, DnsError>(e),
            },
    {
        if self.qtype == QType::A {
            match parse_address(self.entry.as_str().as_bytes()) {
                Some(bytes) => Ok(bytes),
                None => Err(DnsError::MalformedAddress),
            }
        } else {
            Ok(encode_name(self.entry.as_str().as_bytes()))
        }
    }
}

} // verus!
