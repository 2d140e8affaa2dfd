//! Whole messages: a header, the questions and the answers.

use vstd::prelude::*;
use bytebuffer::ByteBuffer;
use bytebuffer::ByteReader;
use crate::answer::{Answer, AnswerView};
use crate::cursor::{buffer_bytes, buffer_state, reader_bytes, reader_state};
use crate::error::DnsError;
use crate::header::DnsHeader;
use crate::question::{parse_question, Question, QuestionView};

verus! {

/// A message: a query as it comes in, or the response that goes out.
#[derive(Clone, Debug, PartialEq, Eq)]
pub struct DnsQuery {
    pub header: DnsHeader,
    pub questions: Vec<Question>,
    pub answers: Vec<Answer>,
}

/// A message as the contracts see it.
pub struct DnsQueryView {
    pub header: DnsHeader,
    pub questions: Seq<QuestionView>,
    pub answers: Seq<AnswerView>,
}

/// The views of a run of questions.
pub open spec fn question_views(questions: Seq<Question>) -> Seq<QuestionView> {
    Seq::new(questions.len(), |i: int| questions[i]@)
}

/// The views of a run of answers.
pub open spec fn answer_views(answers: Seq<Answer>) -> Seq<AnswerView> {
    Seq::new(answers.len(), |i: int| answers[i]@)
}

impl View for DnsQuery {
    type V = DnsQueryView;

    open spec fn view(&self) -> DnsQueryView {
        DnsQueryView {
            header: self.header,
            questions: question_views(self.questions@),
            answers: answer_views(self.answers@),
        }
    }
}

/// Questions on the wire, one after the other.
pub open spec fn questions_wire(questions: Seq<QuestionView>) -> Seq<u8>
    decreases questions.len(),
{
    if questions.len() == 0 {
        Seq::empty()
    } else {
        questions_wire(questions.drop_last()) + questions.last().wire()
    }
}

/// Answers on the wire, one after the other.
pub open spec fn answers_wire(answers: Seq<AnswerView>) -> Seq<u8>
    decreases answers.len(),
{
    if answers.len() == 0 {
        Seq::empty()
    } else {
        answers_wire(answers.drop_last()) + answers.last().wire()
    }
}

/// The `count` questions that stand at byte `at` of a buffer, and the place
/// after the last. The first question that does not parse decides the error.
pub open spec fn parse_questions(bytes: Seq<u8>, at: int, count: nat) -> Result<
    (Seq<QuestionView>, int),
    DnsError,
>
    decreases count,
{
    if count == 0 {
        Ok((Seq::empty(), at))
    } else {
        match parse_question(bytes, at) {
            Err(e) => Err(e),
            Ok((question, next)) => match parse_questions(bytes, next, (count - 1) as nat) {
                Err(e) => Err(e),
                Ok((rest, end)) => Ok((seq![question] + rest, end)),
            },
        }
    }
}

impl DnsQueryView {
    /// The message on the wire: the header, every question and every answer.
    /// Nothing is written for the authority and the additional section,
    /// whatever the header counts say.
    pub open spec fn wire(self) -> Seq<u8> {
        self.header.wire() + questions_wire(self.questions) + answers_wire(self.answers)
    }

    /// The counts of the header are those of the sections that are written.
    pub open spec fn counts_match(self) -> bool {
        &&& self.header.questions == self.questions.len()
        &&& self.header.answers == self.answers.len()
        &&& self.header.authorities == 0
        &&& self.header.additional == 0
    }
}

/// The message that a buffer holds: the header, then as many questions as
/// the header counts. What follows the questions is not looked at.
pub open spec fn parse_message(bytes: Seq<u8>) -> Result<DnsQueryView, DnsError> {
    match DnsHeader::parse(bytes, 0) {
        None => Err(DnsError::UnexpectedEndOfBuffer),
        Some(header) => match parse_questions(bytes, 12, header.questions as nat) {
            Err(e) => Err(e),
            Ok((questions, _)) => Ok(DnsQueryView { header, questions, answers: Seq::empty() }),
        },
    }
}

/// As many questions are parsed as were asked for.
pub proof fn lemma_parsed_questions_count(bytes: Seq<u8>, at: int, count: nat)
    ensures
        parse_questions(bytes, at, count) matches Ok((questions, _)) ==> questions.len() == count,
    decreases count,
{
    if count > 0 {
        match parse_question(bytes, at) {
            Ok((_, next)) => {
                lemma_parsed_questions_count(bytes, next, (count - 1) as nat);
            },
            Err(_) => {},
        }
    }
}

/// A message that decodes holds as many questions as its header counts, and
/// no answers.
pub proof fn lemma_parsed_counts(bytes: Seq<u8>)
    ensures
        parse_message(bytes) matches Ok(message) ==> {
            &&& message.header.questions == message.questions.len()
            &&& message.answers.len() == 0
        },
{
    match DnsHeader::parse(bytes, 0) {
        Some(header) => {
            lemma_parsed_questions_count(bytes, 12, header.questions as nat);
        },
        None => {},
    }
}

impl DnsQuery {
    /// An empty message: a zero header, no questions, no answers.
    pub fn new() -> (message: DnsQuery)
        ensures
            message@ == (DnsQueryView {
                header: DnsHeader::zero(),
                questions: Seq::empty(),
                answers: Seq::empty(),
            }),
    {
        let message = DnsQuery {
            header: DnsHeader::new(),
            questions: Vec::new(),
            answers: Vec::new(),
        };
        assert(question_views(message.questions@) == Seq::<QuestionView>::empty());
        assert(answer_views(message.answers@) == Seq::<AnswerView>::empty());
        message
    }

    /// Decodes a message from a buffer: the header and the questions it
    /// counts. Answers are never read from a buffer.
    pub fn from_buffer(buf: &[u8]) -> (res: Result<DnsQuery, DnsError>)
        ensures
            match res {
                Ok(message) => parse_message(buf@) == Ok::<DnsQueryView, DnsError>(message@),
                Err(e) => parse_message(buf@) == Err::<DnsQueryView, DnsError>(e),
            },
    {
        let mut reader: ByteReader = ByteReader::from_bytes(buf);
        let header: DnsHeader = DnsHeader::read_buf(&mut reader)?;
        let mut questions: Vec<Question> = Vec::new();
        let mut done: u16 = 0;
        let ghost mut at: int = 12;
        while done < header.questions
            invariant
                DnsHeader::parse(buf@, 0) == Some(header),
                done <= header.questions,
                reader_state(reader).network_order(),
                reader_bytes(reader) == buf@,
                reader_state(reader).flushed().at == 8 * at,
                questions@.len() == done,
                match parse_questions(buf@, at, (header.questions - done) as nat) {
                    Ok((rest, end)) => parse_questions(buf@, 12, header.questions as nat) == Ok::<
                        (Seq<QuestionView>, int),
                        DnsError,
                    >((question_views(questions@) + rest, end)),
                    Err(e) => parse_questions(buf@, 12, header.questions as nat) == Err::<
                        (Seq<QuestionView>, int),
                        DnsError,
                    >(e),
                },
            decreases header.questions - done,
        {
            let question: Question = Question::read_buf(&mut reader)?;
            proof {
                let parsed = parse_question(buf@, at);
                let next = parsed->Ok_0.1;
                match parse_questions(buf@, next, (header.questions - done - 1) as nat) {
                    Ok((rest, end)) => {
                        assert(question_views(questions@) + (seq![question@] + rest)
                            == question_views(questions@.push(question)) + rest);
                    },
                    Err(e) => {},
                }
                at = next;
            }
            questions.push(question);
            done += 1;
        }
        proof {
            assert(question_views(questions@) + Seq::<QuestionView>::empty() == question_views(
                questions@,
            ));
            assert(answer_views(Seq::<Answer>::empty()) == Seq::<AnswerView>::empty());
        }
        Ok(DnsQuery { header, questions, answers: Vec::new() })
    }

    /// Appends the message to a writer that stands at the end of its buffer.
    pub fn write_buf(&self, writer: &mut ByteBuffer)
        requires
            buffer_state(*old(writer)).appending(),
        ensures
            buffer_state(*final(writer)).appending(),
            buffer_bytes(*final(writer)) == buffer_bytes(*old(writer)) + self@.wire(),
    {
        self.header.write_buf(writer);
        let mut at: usize = 0;
        while at < self.questions.len()
            invariant
                at <= self.questions@.len(),
                buffer_state(*writer).appending(),
                buffer_bytes(*writer) == buffer_bytes(*old(writer)) + self.header.wire()
                    + questions_wire(question_views(self.questions@).take(at as int)),
            decreases self.questions@.len() - at,
        {
            proof {
                let views = question_views(self.questions@);
                assert(views.take(at + 1).drop_last() == views.take(at as int));
            }
            self.questions[at].write_buf(writer);
            at += 1;
        }
        assert(question_views(self.questions@).take(at as int) == question_views(
            self.questions@,
        ));
        let mut at: usize = 0;
        while at < self.answers.len()
            invariant
                at <= self.answers@.len(),
                buffer_state(*writer).appending(),
                buffer_bytes(*writer) == buffer_bytes(*old(writer)) + self.header.wire()
                    + questions_wire(question_views(self.questions@)) + answers_wire(
                    answer_views(self.answers@).take(at as int),
                ),
            decreases self.answers@.len() - at,
        {
            proof {
                let views = answer_views(self.answers@);
                assert(views.take(at + 1).drop_last() == views.take(at as int));
            }
            self.answers[at].write_buf(writer);
            at += 1;
        }
        assert(answer_views(self.answers@).take(at as int) == answer_views(self.answers@));
    }

    /// The bytes of the message on the wire.
    pub fn to_bytes(&self) -> (bytes: Vec<u8>)
        ensures
            bytes@ == self@.wire(),
    {
        let mut writer: ByteBuffer = ByteBuffer::new();
        self.write_buf(&mut writer);
        assert(Seq::<u8>::empty() + self@.wire() == self@.wire());
        writer.into_vec()
    }
}

} // verus!
