//! What is written comes back when it is read: names, questions and whole
//! queries.

use vstd::prelude::*;
use vstd::utf8::{
    decode_utf8, decode_utf8_split, encode_utf8, encode_utf8_decode_utf8, encode_utf8_valid_utf8,
    is_char_boundary, is_char_boundary_iff_is_leading_byte, is_leading_byte_width_1, valid_utf8,
    valid_utf8_split,
};
use crate::cursor::be16;
use crate::error::DnsError;
use crate::header::{lemma_header_round_trip, lemma_header_wire_len, DnsHeader};
use crate::message::{
    answers_wire, parse_message, parse_questions, questions_wire, DnsQueryView,
};
use crate::name::{dotted, first_dot, label_wire, name_wire, parse_name, DOT};
use crate::question::{parse_question, QuestionView};

verus! {

/// Every label of a dotted name has at least one byte and at most 255: none
/// is taken for the end of the name, and the length of none is cut.
pub open spec fn fits_labels(name: Seq<u8>) -> bool
    decreases name.len(),
{
    let dot = first_dot(name) as int;
    if 0 <= dot < name.len() {
        1 <= dot <= 255 && fits_labels(name.skip(dot + 1))
    } else {
        1 <= name.len() <= 255
    }
}

/// The labels of a dotted name as text.
pub open spec fn labels_of(name: Seq<u8>) -> Seq<Seq<char>>
    decreases name.len(),
{
    let dot = first_dot(name) as int;
    if 0 <= dot < name.len() {
        seq![decode_utf8(name.take(dot))] + labels_of(name.skip(dot + 1))
    } else {
        seq![decode_utf8(name)]
    }
}

/// The first dot lies in the name or at its end, no byte before it is a dot,
/// and it is one itself unless the name ends there.
pub proof fn lemma_first_dot_bounds(name: Seq<u8>)
    ensures
        0 <= first_dot(name) <= name.len(),
        forall|j: int| 0 <= j < first_dot(name) ==> name[j] != DOT,
        first_dot(name) < name.len() ==> name[first_dot(name) as int] == DOT,
    decreases name.len(),
{
    if name.len() > 0 && name[0] != DOT {
        let rest = name.drop_first();
        lemma_first_dot_bounds(rest);
        assert forall|j: int| 0 <= j < first_dot(name) implies name[j] != DOT by {
            if j > 0 {
                assert(name[j] == rest[j - 1]);
            }
        }
    }
}

/// A name has at least one label.
proof fn lemma_labels_exist(name: Seq<u8>)
    ensures
        labels_of(name).len() >= 1,
    decreases name.len(),
{
    let dot = first_dot(name) as int;
    if 0 <= dot < name.len() {
        lemma_labels_exist(name.skip(dot + 1));
    }
}

/// Joining a label in front of others puts a dot after it.
proof fn lemma_dotted_front(first: Seq<char>, rest: Seq<Seq<char>>)
    requires
        rest.len() >= 1,
    ensures
        dotted(seq![first] + rest) == first + seq!['.'] + dotted(rest),
    decreases rest.len(),
{
    let all = seq![first] + rest;
    assert(all.last() == rest.last());
    if rest.len() == 1 {
        assert(all.drop_last() == seq![first]);
        assert(dotted(seq![first]) == first);
        assert(dotted(rest) == rest[0]);
    } else {
        assert(all.drop_last() == seq![first] + rest.drop_last());
        lemma_dotted_front(first, rest.drop_last());
        assert(dotted(all) == first + seq!['.'] + dotted(rest.drop_last()) + seq!['.']
            + rest.last());
        assert(first + seq!['.'] + dotted(rest.drop_last()) + seq!['.'] + rest.last() == first
            + seq!['.'] + (dotted(rest.drop_last()) + seq!['.'] + rest.last()));
    }
}

/// The byte of the dot is the text of one dot.
proof fn lemma_dot_is_a_dot()
    ensures
        valid_utf8(seq![DOT]),
        decode_utf8(seq![DOT]) == seq!['.'],
{
    let one = seq![DOT];
    assert(0x2Eu8 & 0x7F == 0x2E) by (bit_vector);
    assert(one[0] == 0x2Eu8);
    assert(one.subrange(1, 1) == Seq::<u8>::empty());
    reveal_with_fuel(valid_utf8, 2);
    reveal_with_fuel(decode_utf8, 2);
    assert(decode_utf8(Seq::<u8>::empty()) == Seq::<char>::empty());
    assert(0x2Eu32 as char == '.');
    assert(decode_utf8(one) == seq!['.'] + Seq::<char>::empty());
}

/// Text that holds a dot falls into the text before it, the dot and the
/// text after it.
proof fn lemma_text_parts_at_dot(text: Seq<u8>, dot: int)
    requires
        valid_utf8(text),
        0 <= dot < text.len(),
        text[dot] == DOT,
    ensures
        valid_utf8(text.take(dot)),
        valid_utf8(text.skip(dot + 1)),
        decode_utf8(text) == decode_utf8(text.take(dot)) + seq!['.'] + decode_utf8(
            text.skip(dot + 1),
        ),
{
    assert(is_leading_byte_width_1(text[dot]));
    is_char_boundary_iff_is_leading_byte(text, dot);
    valid_utf8_split(text, dot);
    decode_utf8_split(text, dot);
    let tail = text.subrange(dot, text.len() as int);
    assert(text.take(dot) == text.subrange(0, dot));
    assert(tail[0] == DOT);
    assert(is_char_boundary(tail, 1)) by {
        reveal_with_fuel(is_char_boundary, 2);
        reveal_with_fuel(valid_utf8, 2);
    }
    valid_utf8_split(tail, 1);
    decode_utf8_split(tail, 1);
    assert(tail.subrange(0, 1) == seq![DOT]);
    assert(tail.subrange(1, tail.len() as int) == text.skip(dot + 1));
    lemma_dot_is_a_dot();
}

/// The labels of a name that is text are text, and joined by dots they are
/// the name; on the wire, with anything before and after, they are read back
/// where each has between 1 and 255 bytes.
pub proof fn lemma_labels_round_trip(name: Seq<u8>, before: Seq<u8>, after: Seq<u8>)
    requires
        valid_utf8(name),
        fits_labels(name),
    ensures
        dotted(labels_of(name)) == decode_utf8(name),
        parse_name(before + name_wire(name) + after, before.len() as int) == Ok::<
            (Seq<Seq<char>>, int),
            DnsError,
        >((labels_of(name), (before.len() + name_wire(name).len()) as int)),
    decreases name.len(),
{
    lemma_first_dot_bounds(name);
    let dot = first_dot(name) as int;
    let bytes = before + name_wire(name) + after;
    let at = before.len() as int;
    if dot < name.len() {
        let label = name.take(dot);
        let rest = name.skip(dot + 1);
        lemma_text_parts_at_dot(name, dot);
        let front = before + label_wire(label);
        lemma_labels_round_trip(rest, front, after);
        lemma_labels_exist(rest);
        lemma_dotted_front(decode_utf8(label), labels_of(rest));
        assert(bytes == front + name_wire(rest) + after);
        assert(bytes[at] == dot as u8);
        assert(bytes.subrange(at + 1, at + 1 + dot) == label);
        assert(front.len() == at + 1 + dot);
    } else {
        assert(name_wire(name) == label_wire(name) + seq![0u8]);
        assert(bytes[at] == name.len() as u8);
        let end = at + 1 + name.len();
        assert(bytes.subrange(at + 1, end) == name);
        assert(bytes[end] == 0);
        assert(parse_name(bytes, end) == Ok::<(Seq<Seq<char>>, int), DnsError>(
            (Seq::empty(), end + 1),
        ));
        assert(seq![decode_utf8(name)] + Seq::<Seq<char>>::empty() == seq![decode_utf8(name)]);
    }
}

/// A name whose labels each have between 1 and 255 bytes is read back from
/// the wire as it was written, wherever it stands in a buffer.
pub proof fn lemma_name_round_trip(name: Seq<char>, before: Seq<u8>, after: Seq<u8>)
    requires
        fits_labels(encode_utf8(name)),
    ensures
        parse_name(
            before + name_wire(encode_utf8(name)) + after,
            before.len() as int,
        ) matches Ok((labels, next)) && dotted(labels) == name && next == before.len() + name_wire(
            encode_utf8(name),
        ).len(),
{
    encode_utf8_valid_utf8(name);
    encode_utf8_decode_utf8(name);
    lemma_labels_round_trip(encode_utf8(name), before, after);
}

/// A question that decoding yields again: its name has labels of 1 to 255
/// bytes each, and its type and class are known ones.
pub open spec fn comes_back(question: QuestionView) -> bool {
    &&& fits_labels(encode_utf8(question.qname))
    &&& !(question.qtype is Unknown)
    &&& !(question.qclass is Unknown)
}

/// Such a question is read back from the wire as it was written, wherever it
/// stands in a buffer.
pub proof fn lemma_question_round_trip(question: QuestionView, before: Seq<u8>, after: Seq<u8>)
    requires
        comes_back(question),
    ensures
        parse_question(before + question.wire() + after, before.len() as int) == Ok::<
            (QuestionView, int),
            DnsError,
        >((question, (before.len() + question.wire().len()) as int)),
{
    let name = name_wire(encode_utf8(question.qname));
    let codes = be16(question.qtype.code()) + be16(question.qclass.code());
    let bytes = before + question.wire() + after;
    lemma_name_round_trip(question.qname, before, codes + after);
    assert(bytes == before + name + (codes + after));
    let next = (before.len() + name.len()) as int;
    assert(bytes[next] == be16(question.qtype.code())[0]);
    assert(bytes[next + 1] == be16(question.qtype.code())[1]);
    assert(bytes[next + 2] == be16(question.qclass.code())[0]);
    assert(bytes[next + 3] == be16(question.qclass.code())[1]);
}

/// Questions on the wire begin with the first of them.
proof fn lemma_questions_wire_front(first: QuestionView, rest: Seq<QuestionView>)
    ensures
        questions_wire(seq![first] + rest) == first.wire() + questions_wire(rest),
    decreases rest.len(),
{
    let all = seq![first] + rest;
    if rest.len() == 0 {
        assert(all.drop_last() =~= Seq::<QuestionView>::empty());
        assert(all.last() == first);
        assert(questions_wire(all.drop_last()) =~= Seq::<u8>::empty());
        assert(questions_wire(all) =~= first.wire());
        assert(first.wire() + questions_wire(rest) =~= first.wire());
    } else {
        assert(all.drop_last() =~= seq![first] + rest.drop_last());
        assert(all.last() == rest.last());
        lemma_questions_wire_front(first, rest.drop_last());
        assert(first.wire() + questions_wire(rest.drop_last()) + rest.last().wire()
            =~= first.wire() + (questions_wire(rest.drop_last()) + rest.last().wire()));
    }
}

/// Questions that each come back are read back from the wire, as many as
/// were written and in their order, wherever they stand in a buffer.
pub proof fn lemma_questions_round_trip(
    questions: Seq<QuestionView>,
    before: Seq<u8>,
    after: Seq<u8>,
)
    requires
        forall|i: int| 0 <= i < questions.len() ==> comes_back(#[trigger] questions[i]),
    ensures
        parse_questions(
            before + questions_wire(questions) + after,
            before.len() as int,
            questions.len(),
        ) == Ok::<(Seq<QuestionView>, int), DnsError>(
            (questions, (before.len() + questions_wire(questions).len()) as int),
        ),
    decreases questions.len(),
{
    let bytes = before + questions_wire(questions) + after;
    let at = before.len() as int;
    if questions.len() == 0 {
        assert(questions =~= Seq::<QuestionView>::empty());
        assert(questions_wire(questions).len() == 0);
    } else {
        let first = questions[0];
        let rest = questions.drop_first();
        assert(questions =~= seq![first] + rest);
        lemma_questions_wire_front(first, rest);
        let tail = questions_wire(rest) + after;
        let front = before + first.wire();
        assert(bytes =~= before + first.wire() + tail);
        assert(bytes =~= front + questions_wire(rest) + after);
        lemma_question_round_trip(first, before, tail);
        assert(parse_question(bytes, at) == Ok::<(QuestionView, int), DnsError>(
            (first, front.len() as int),
        ));
        assert forall|i: int| 0 <= i < rest.len() implies comes_back(#[trigger] rest[i]) by {
            assert(rest[i] == questions[i + 1]);
        }
        lemma_questions_round_trip(rest, front, after);
        let end = (front.len() + questions_wire(rest).len()) as int;
        assert(parse_questions(bytes, front.len() as int, rest.len()) == Ok::<
            (Seq<QuestionView>, int),
            DnsError,
        >((rest, end)));
        assert(rest.len() == (questions.len() - 1) as nat);
        assert(parse_questions(bytes, at, questions.len()) == Ok::<
            (Seq<QuestionView>, int),
            DnsError,
        >((seq![first] + rest, end)));
    }
}

/// A query whose flags fit their bits, whose header counts its questions and
/// whose questions each come back is decoded from its bytes as it was encoded,
/// but for the answers, which are never read; so is it when more bytes follow.
pub proof fn lemma_query_round_trip(query: DnsQueryView, after: Seq<u8>)
    requires
        query.header.flags.fits(),
        query.header.questions == query.questions.len(),
        forall|i: int| 0 <= i < query.questions.len() ==> comes_back(#[trigger] query.questions[i]),
    ensures
        parse_message(query.wire() + after) == Ok::<DnsQueryView, DnsError>(
            DnsQueryView { answers: Seq::empty(), ..query },
        ),
{
    let bytes = query.wire() + after;
    let head = query.header.wire();
    let tail = answers_wire(query.answers) + after;
    let body = questions_wire(query.questions) + tail;
    lemma_header_wire_len(query.header);
    assert(bytes =~= head + body);
    assert(DnsHeader::parse(bytes, 0) == Some(query.header)) by {
        lemma_header_round_trip(query.header, Seq::empty(), body);
        assert(Seq::<u8>::empty() + head + body =~= head + body);
    }
    assert(parse_questions(bytes, 12, query.questions.len()) == Ok::<
        (Seq<QuestionView>, int),
        DnsError,
    >((query.questions, (12 + questions_wire(query.questions).len()) as int))) by {
        lemma_questions_round_trip(query.questions, head, tail);
        assert(head + questions_wire(query.questions) + tail =~= head + body);
    }
}

} // verus!
