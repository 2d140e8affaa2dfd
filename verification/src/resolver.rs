//! Resolution: the records that answer a question, the one that is picked
//! among them, and the response that goes back.

use vstd::prelude::*;
use crate::answer::{Answer, AnswerView};
use crate::error::DnsError;
use crate::header::{DnsHeader, Flags};
use crate::message::{
    answer_views, parse_message, question_views, DnsQuery, DnsQueryView,
};
use crate::question::{Question, QuestionView};
use crate::record::{lemma_payload_length, DnsRecord, DnsRecordView};

verus! {

/// The views of the records of a store.
pub open spec fn record_views(records: Seq<DnsRecord>) -> Seq<DnsRecordView> {
    Seq::new(records.len(), |i: int| records[i]@)
}

/// The records of a store that answer a question, in the order of the store.
pub open spec fn matching(records: Seq<DnsRecordView>, question: QuestionView) -> Seq<
    DnsRecordView,
>
    decreases records.len(),
{
    if records.len() == 0 {
        Seq::empty()
    } else if records.last().matches(question) {
        matching(records.drop_last(), question).push(records.last())
    } else {
        matching(records.drop_last(), question)
    }
}

/// What one question resolves to: nothing where no record answers it, else
/// the answer made from the record that the draw picks among those that do,
/// or the error of making it.
pub open spec fn resolve(records: Seq<DnsRecordView>, question: QuestionView, draw: u32) -> Result<
    Option<AnswerView>,
    DnsError,
> {
    let found = matching(records, question);
    if found.len() == 0 {
        Ok(None)
    } else {
        match found[draw as int % found.len() as int].answer() {
            Ok(answer) => Ok(Some(answer)),
            Err(e) => Err(e),
        }
    }
}

/// The draw for question `i`: the `i`-th of the draws, or zero where there
/// are fewer.
pub open spec fn draw_at(draws: Seq<u32>, i: int) -> u32 {
    if 0 <= i < draws.len() {
        draws[i]
    } else {
        0
    }
}

/// The answers to the first `count` questions, in their order; the first
/// question that fails to resolve decides the error.
pub open spec fn resolve_all(
    records: Seq<DnsRecordView>,
    questions: Seq<QuestionView>,
    draws: Seq<u32>,
    count: nat,
) -> Result<Seq<AnswerView>, DnsError>
    decreases count,
{
    if count == 0 {
        Ok(Seq::empty())
    } else {
        match resolve_all(records, questions, draws, (count - 1) as nat) {
            Err(e) => Err(e),
            Ok(answers) => match resolve(
                records,
                questions[count - 1],
                draw_at(draws, count - 1),
            ) {
                Err(e) => Err(e),
                Ok(None) => Ok(answers),
                Ok(Some(answer)) => Ok(answers.push(answer)),
            },
        }
    }
}

/// The response to a query with the given answers: the header and the
/// questions of the query, the answers counted, no authority and no
/// additional records, marked as a response that is neither authoritative nor
/// truncated and offers no recursion. The response code is 0 where every
/// question has an answer and 3 where one has none.
pub open spec fn response(query: DnsQueryView, answers: Seq<AnswerView>) -> DnsQueryView {
    DnsQueryView {
        header: DnsHeader {
            answers: (answers.len() % 0x1_0000) as u16,
            authorities: 0,
            additional: 0,
            flags: Flags {
                qr: true,
                authorihative_answer: false,
                truncate: false,
                recursion_available: false,
                response_code: if answers.len() == query.questions.len() {
                    0
                } else {
                    3
                },
                ..query.header.flags
            },
            ..query.header
        },
        questions: query.questions,
        answers,
    }
}

/// The response to a query from a store, one draw for each question.
pub open spec fn respond_to(records: Seq<DnsRecordView>, query: DnsQueryView, draws: Seq<u32>)
    -> Result<DnsQueryView, DnsError> {
    match resolve_all(records, query.questions, draws, query.questions.len()) {
        Ok(answers) => Ok(response(query, answers)),
        Err(e) => Err(e),
    }
}

/// The longest datagram that is served, in bytes.
pub const MAX_DATAGRAM: usize = 512;

/// The bytes that go back for the bytes that came in: the response to the
/// query they decode to, on the wire. A datagram over the limit is refused
/// before it is decoded.
pub open spec fn reply_to(records: Seq<DnsRecordView>, datagram: Seq<u8>, draws: Seq<u32>)
    -> Result<Seq<u8>, DnsError> {
    if datagram.len() > MAX_DATAGRAM {
        Err(DnsError::DatagramTooLarge)
    } else {
        match parse_message(datagram) {
            Err(e) => Err(e),
            Ok(query) => match respond_to(records, query, draws) {
                Err(e) => Err(e),
                Ok(reply) => Ok(reply.wire()),
            },
        }
    }
}

/// Once a question has failed to resolve, the error stands however many
/// questions follow.
pub proof fn lemma_error_stays(
    records: Seq<DnsRecordView>,
    questions: Seq<QuestionView>,
    draws: Seq<u32>,
    failed: nat,
    count: nat,
)
    requires
        failed <= count,
        resolve_all(records, questions, draws, failed) is Err,
    ensures
        resolve_all(records, questions, draws, count) == resolve_all(
            records,
            questions,
            draws,
            failed,
        ),
    decreases count,
{
    if failed < count {
        lemma_error_stays(records, questions, draws, failed, (count - 1) as nat);
    }
}

/// The records picked for a question are records of the store that answer
/// it, and there are no more of them than the store holds.
pub proof fn lemma_matching_members(records: Seq<DnsRecordView>, question: QuestionView)
    ensures
        matching(records, question).len() <= records.len(),
        forall|k: int|
            0 <= k < matching(records, question).len() ==> (#[trigger] matching(
                records,
                question,
            )[k]).matches(question) && records.contains(matching(records, question)[k]),
    decreases records.len(),
{
    if records.len() > 0 {
        let head = records.drop_last();
        lemma_matching_members(head, question);
        let found = matching(records, question);
        assert forall|k: int| 0 <= k < found.len() implies (#[trigger] found[k]).matches(question)
            && records.contains(found[k]) by {
            if k < matching(head, question).len() {
                let record = matching(head, question)[k];
                assert(head.contains(record));
                let at = choose|at: int| 0 <= at < head.len() && head[at] == record;
                assert(records[at] == record);
            } else {
                assert(records[records.len() - 1] == records.last());
            }
        }
    }
}

/// A question that no record of the store answers gets no answer, whatever
/// is drawn.
pub proof fn lemma_unanswered(records: Seq<DnsRecordView>, question: QuestionView, draw: u32)
    requires
        forall|i: int| 0 <= i < records.len() ==> !(#[trigger] records[i]).matches(question),
    ensures
        matching(records, question).len() == 0,
        resolve(records, question, draw) == Ok::<Option<AnswerView>, DnsError>(None),
    decreases records.len(),
{
    if records.len() > 0 {
        let head = records.drop_last();
        assert forall|i: int| 0 <= i < head.len() implies !(#[trigger] head[i]).matches(
            question,
        ) by {
            assert(head[i] == records[i]);
        }
        lemma_unanswered(head, question, draw);
        assert(!records[records.len() - 1].matches(question));
    }
}

/// An answer carries the name, the type and the class of its question, lives
/// sixty seconds, and declares the length of its data where that fits
/// sixteen bits.
pub proof fn lemma_answer_shape(records: Seq<DnsRecordView>, question: QuestionView, draw: u32)
    ensures
        resolve(records, question, draw) matches Ok(Some(answer)) ==> {
            &&& answer.name == question.qname
            &&& answer.qtype == question.qtype
            &&& answer.qclass == question.qclass
            &&& answer.ttl == 60
            &&& answer.length == answer.data.len() % 0x1_0000
        },
{
    let found = matching(records, question);
    if found.len() > 0 {
        lemma_matching_members(records, question);
        let picked = found[draw as int % found.len() as int];
        assert(picked.matches(question));
        lemma_payload_length(picked);
    }
}

/// Each record that answers a question is the one picked for some draw: the
/// `k`-th of them for the draw `k`.
pub proof fn lemma_every_match_is_drawn(
    records: Seq<DnsRecordView>,
    question: QuestionView,
    k: u32,
)
    requires
        k < matching(records, question).len(),
    ensures
        resolve(records, question, k) == (match matching(records, question)[k as int].answer() {
            Ok(answer) => Ok::<Option<AnswerView>, DnsError>(Some(answer)),
            Err(e) => Err::<Option<AnswerView>, DnsError>(e),
        }),
{
    vstd::arithmetic::div_mod::lemma_small_mod(k as nat, matching(records, question).len());
}

/// There is at most one answer to a question, and as many answers as
/// questions exactly where every question is answered by some record.
pub proof fn lemma_answer_count(
    records: Seq<DnsRecordView>,
    questions: Seq<QuestionView>,
    draws: Seq<u32>,
    count: nat,
)
    requires
        count <= questions.len(),
    ensures
        resolve_all(records, questions, draws, count) matches Ok(answers) ==> {
            &&& answers.len() <= count
            &&& answers.len() == count <==> forall|i: int|
                0 <= i < count ==> matching(records, #[trigger] questions[i]).len() > 0
        },
    decreases count,
{
    if count > 0 {
        lemma_answer_count(records, questions, draws, (count - 1) as nat);
        match resolve_all(records, questions, draws, count) {
            Ok(answers) => {
                let before = resolve_all(records, questions, draws, (count - 1) as nat)->Ok_0;
                if answers.len() == count {
                    assert(before.len() == count - 1);
                    assert(matching(records, questions[count - 1]).len() > 0);
                }
                if matching(records, questions[count - 1]).len() == 0 {
                    assert(answers.len() < count);
                }
            },
            Err(_) => {},
        }
    }
}

/// The response code is 0 where every question of the query is answered by
/// some record of the store, and 3 where one is not; the header counts the
/// answers modulo 65536 and keeps the id, the opcode and the recursion wish
/// of the query.
pub proof fn lemma_response_code(records: Seq<DnsRecordView>, query: DnsQueryView, draws: Seq<u32>)
    ensures
        respond_to(records, query, draws) matches Ok(reply) ==> {
            &&& reply.questions == query.questions
            &&& reply.answers.len() <= query.questions.len()
            &&& reply.header.answers == reply.answers.len() % 0x1_0000
            &&& reply.header.id == query.header.id
            &&& reply.header.flags.opcode == query.header.flags.opcode
            &&& reply.header.flags.recursion_desired == query.header.flags.recursion_desired
            &&& reply.header.flags.qr
            &&& reply.header.flags.response_code == (if forall|i: int|
                0 <= i < query.questions.len() ==> matching(
                    records,
                    #[trigger] query.questions[i],
                ).len() > 0 {
                0u8
            } else {
                3u8
            })
        },
{
    lemma_answer_count(records, query.questions, draws, query.questions.len());
}


/// The header of a response counts its sections rightly where the header of
/// the query counted its questions rightly, as that of every decoded query
/// does.
pub proof fn lemma_response_counts(
    records: Seq<DnsRecordView>,
    query: DnsQueryView,
    draws: Seq<u32>,
)
    requires
        query.header.questions == query.questions.len(),
    ensures
        respond_to(records, query, draws) matches Ok(reply) ==> reply.counts_match(),
{
    lemma_answer_count(records, query.questions, draws, query.questions.len());
}

/// A random 32-bit number from the generator of the current thread:
/// `rand::thread_rng` and `RngCore::next_u32`. Nothing is promised of it.
#[verifier::external_body]
fn random_draw() -> u32 {
    rand::RngCore::next_u32(&mut rand::thread_rng())
}

/// The places in the store of the records that answer a question.
pub fn matching_records(records: &Vec<DnsRecord>, question: &Question) -> (found: Vec<usize>)
    ensures
        found@.len() == matching(record_views(records@), question@).len(),
        forall|i: int|
            0 <= i < found@.len() ==> (#[trigger] found@[i]) < records@.len()
                && records@[found@[i] as int]@ == matching(record_views(records@), question@)[i],
{
    let mut found: Vec<usize> = Vec::new();
    let mut at: usize = 0;
    let ghost views = record_views(records@);
    assert(views.take(0) == Seq::<DnsRecordView>::empty());
    while at < records.len()
        invariant
            at <= records@.len(),
            views == record_views(records@),
            found@.len() == matching(views.take(at as int), question@).len(),
            forall|i: int|
                0 <= i < found@.len() ==> (#[trigger] found@[i]) < records@.len()
                    && records@[found@[i] as int]@ == matching(views.take(at as int), question@)[i],
        decreases records@.len() - at,
    {
        proof {
            assert(views.take(at + 1).drop_last() == views.take(at as int));
            assert(views.take(at + 1).last() == records@[at as int]@);
        }
        if records[at].matches(question) {
            found.push(at);
        }
        at += 1;
    }
    assert(views.take(at as int) == views);
    found
}

/// Resolves one question against the store with the given draw.
pub fn resolve_question(records: &Vec<DnsRecord>, question: &Question, draw: u32) -> (res: Result<
    Option<Answer>,
    DnsError,
>)
    ensures
        match res {
            Ok(Some(answer)) => resolve(record_views(records@), question@, draw) == Ok::<
                Option<AnswerView>,
                DnsError,
            >(Some(answer@)),
            Ok(None) => resolve(record_views(records@), question@, draw) == Ok::<
                Option<AnswerView>,
                DnsError,
            >(None),
            Err(e) => resolve(record_views(records@), question@, draw) == Err::<
                Option<AnswerView>,
                DnsError,
            >(e),
        },
{
    let found: Vec<usize> = matching_records(records, question);
    if found.len() == 0 {
        return Ok(None);
    }
    let pick: usize = draw as usize % found.len();
    let answer: Answer = records[found[pick]].answer()?;
    Ok(Some(answer))
}

/// Responds to a query from the store, with one draw for each question; a
/// question for which no draw is given gets the draw zero. The response is
/// withheld where a question cannot be resolved.
pub fn respond_with(query: DnsQuery, records: &Vec<DnsRecord>, draws: &[u32]) -> (res: Result<
    DnsQuery,
    DnsError,
>)
    ensures
        match res {
            Ok(reply) => respond_to(record_views(records@), query@, draws@) == Ok::<
                DnsQueryView,
                DnsError,
            >(reply@),
            Err(e) => respond_to(record_views(records@), query@, draws@) == Err::<
                DnsQueryView,
                DnsError,
            >(e),
        },
{
    let mut answers: Vec<Answer> = Vec::new();
    let mut at: usize = 0;
    let ghost questions = question_views(query.questions@);
    assert(answer_views(answers@) == Seq::<AnswerView>::empty());
    while at < query.questions.len()
        invariant
            at <= query.questions@.len(),
            questions == question_views(query.questions@),
            resolve_all(record_views(records@), questions, draws@, at as nat) == Ok::<
                Seq<AnswerView>,
                DnsError,
            >(answer_views(answers@)),
        decreases query.questions@.len() - at,
    {
        let draw: u32 = if at < draws.len() {
            draws[at]
        } else {
            0
        };
        let ghost before = answer_views(answers@);
        match resolve_question(records, &query.questions[at], draw) {
            Ok(Some(answer)) => {
                answers.push(answer);
                assert(answer_views(answers@) == before.push(answer@));
            },
            Ok(None) => {},
            Err(e) => {
                proof {
                    lemma_error_stays(
                        record_views(records@),
                        questions,
                        draws@,
                        (at + 1) as nat,
                        questions.len(),
                    );
                }
                return Err(e);
            },
        }
        at += 1;
    }
    let mut header: DnsHeader = query.header;
    header.answers = (answers.len() % 0x1_0000) as u16;
    header.additional = 0;
    header.authorities = 0;
    header.flags.qr = true;
    header.flags.authorihative_answer = false;
    header.flags.truncate = false;
    header.flags.recursion_available = false;
    header.flags.response_code = if answers.len() != query.questions.len() {
        3
    } else {
        0
    };
    Ok(DnsQuery { header, questions: query.questions, answers })
}

/// As many random draws as asked for.
fn random_draws(count: usize) -> (draws: Vec<u32>)
    ensures
        draws@.len() == count,
{
    let mut draws: Vec<u32> = Vec::new();
    while draws.len() < count
        invariant
            draws@.len() <= count,
        decreases count - draws@.len(),
    {
        draws.push(random_draw());
    }
    draws
}

/// Responds to a query from the store, picking at random among the records
/// that answer a question. Whatever was drawn, the response is the one that
/// `respond_with` gives for some draws, one for each question.
pub fn respond(query: DnsQuery, records: &Vec<DnsRecord>) -> (res: Result<DnsQuery, DnsError>)
    ensures
        exists|draws: Seq<u32>|
            draws.len() == query.questions@.len() && match res {
                Ok(reply) => #[trigger] respond_to(record_views(records@), query@, draws) == Ok::<
                    DnsQueryView,
                    DnsError,
                >(reply@),
                Err(e) => respond_to(record_views(records@), query@, draws) == Err::<
                    DnsQueryView,
                    DnsError,
                >(e),
            },
{
    let draws: Vec<u32> = random_draws(query.questions.len());
    respond_with(query, records, draws.as_slice())
}

/// Handles one datagram with the given draws: decodes the query, resolves
/// its questions and encodes the response.
pub fn handle_with(datagram: &[u8], records: &Vec<DnsRecord>, draws: &[u32]) -> (res: Result<
    Vec<u8>,
    DnsError,
>)
    ensures
        match res {
            Ok(reply) => reply_to(record_views(records@), datagram@, draws@) == Ok::<
                Seq<u8>,
                DnsError,
            >(reply@),
            Err(e) => reply_to(record_views(records@), datagram@, draws@) == Err::<
                Seq<u8>,
                DnsError,
            >(e),
        },
{
    if datagram.len() > MAX_DATAGRAM {
        return Err(DnsError::DatagramTooLarge);
    }
    let query: DnsQuery = DnsQuery::from_buffer(datagram)?;
    let reply: DnsQuery = respond_with(query, records, draws)?;
    Ok(reply.to_bytes())
}

/// Handles one datagram, picking at random among the records that answer a
/// question. Whatever was drawn, the outcome is the one that `handle_with`
/// gives for some draws.
pub fn handle(datagram: &[u8], records: &Vec<DnsRecord>) -> (res: Result<Vec<u8>, DnsError>)
    ensures
        exists|draws: Seq<u32>|
            match res {
                Ok(reply) => #[trigger] reply_to(record_views(records@), datagram@, draws) == Ok::<
                    Seq<u8>,
                    DnsError,
                >(reply@),
                Err(e) => reply_to(record_views(records@), datagram@, draws) == Err::<
                    Seq<u8>,
                    DnsError,
                >(e),
            },
{
    if datagram.len() > MAX_DATAGRAM {
        assert(reply_to(record_views(records@), datagram@, Seq::<u32>::empty()) == Err::<
            Seq<u8>,
            DnsError,
        >(DnsError::DatagramTooLarge));
        return Err(DnsError::DatagramTooLarge);
    }
    let query: DnsQuery = match DnsQuery::from_buffer(datagram) {
        Ok(query) => query,
        Err(e) => {
            assert(reply_to(record_views(records@), datagram@, Seq::<u32>::empty()) == Err::<
                Seq<u8>,
                DnsError,
            >(e));
            return Err(e);
        },
    };
    let draws: Vec<u32> = random_draws(query.questions.len());
    match respond_with(query, records, draws.as_slice()) {
        Ok(reply) => {
            let bytes: Vec<u8> = reply.to_bytes();
            assert(reply_to(record_views(records@), datagram@, draws@) == Ok::<Seq<u8>, DnsError>(
                bytes@,
            ));
            Ok(bytes)
        },
        Err(e) => {
            assert(reply_to(record_views(records@), datagram@, draws@) == Err::<Seq<u8>, DnsError>(
                e,
            ));
            Err(e)
        },
    }
}

} // verus!
