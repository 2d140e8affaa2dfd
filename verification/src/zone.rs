//! The record source: plain text, one record to a line, four fields parted
//! by whitespace: name, class, type and value.

use vstd::prelude::*;
use crate::error::DnsError;
use crate::record::{DnsRecord, DnsRecordView};
use crate::resolver::record_views;
use crate::types::{QClass, QType};

verus! {

/// The fields of a line: its runs of characters that are not whitespace, as
/// `str::split_whitespace` yields them.
pub uninterp spec fn line_fields(line: Seq<char>) -> Seq<Seq<char>>;

/// The characters of each of a run of texts.
pub open spec fn texts(fields: Seq<String>) -> Seq<Seq<char>> {
    Seq::new(fields.len(), |i: int| fields[i]@)
}

/// `str::split_whitespace`: the fields of a line, each as a text of its own.
#[verifier::external_body]
fn split_line(line: &str) -> (fields: Vec<String>)
    ensures
        texts(fields@) == line_fields(line@),
{
    line.split_whitespace().map(String::from).collect()
}

/// The record that the fields of a line make: none unless there are four,
/// and an error where the class or the type is not a known name.
pub open spec fn record_of(fields: Seq<Seq<char>>) -> Result<Option<DnsRecordView>, DnsError> {
    if fields.len() != 4 {
        Ok(None)
    } else {
        match (QClass::of_name(fields[1]), QType::of_name(fields[2])) {
            (Some(qclass), Some(qtype)) => Ok(
                Some(DnsRecordView { qname: fields[0], qclass, qtype, entry: fields[3] }),
            ),
            _ => Err(DnsError::RecordSourceError),
        }
    }
}

/// The records that the first `count` lines make, in their order; the first
/// line that is refused decides the error.
pub open spec fn records_of(lines: Seq<Seq<char>>, count: nat) -> Result<
    Seq<DnsRecordView>,
    DnsError,
>
    decreases count,
{
    if count == 0 {
        Ok(Seq::empty())
    } else {
        match records_of(lines, (count - 1) as nat) {
            Err(e) => Err(e),
            Ok(records) => match record_of(line_fields(lines[count - 1])) {
                Err(e) => Err(e),
                Ok(None) => Ok(records),
                Ok(Some(record)) => Ok(records.push(record)),
            },
        }
    }
}

/// Once a line has been refused, the error stands however many lines follow.
pub proof fn lemma_refusal_stays(lines: Seq<Seq<char>>, refused: nat, count: nat)
    requires
        refused <= count,
        records_of(lines, refused) is Err,
    ensures
        records_of(lines, count) == records_of(lines, refused),
    decreases count,
{
    if refused < count {
        lemma_refusal_stays(lines, refused, (count - 1) as nat);
    }
}

/// The record that the fields of a line make.
pub fn record_from_fields(fields: &Vec<String>) -> (res: Result<Option<DnsRecord>, DnsError>)
    ensures
        match res {
            Ok(Some(record)) => record_of(texts(fields@)) == Ok::<Option<DnsRecordView>, DnsError>(
                Some(record@),
            ),
            Ok(None) => record_of(texts(fields@)) == Ok::<Option<DnsRecordView>, DnsError>(None),
            Err(e) => record_of(texts(fields@)) == Err::<Option<DnsRecordView>, DnsError>(e),
        },
{
    if fields.len() != 4 {
        return Ok(None);
    }
    match DnsRecord::try_new(
        fields[0].as_str(),
        fields[1].as_str(),
        fields[2].as_str(),
        fields[3].as_str(),
    ) {
        Some(record) => Ok(Some(record)),
        None => Err(DnsError::RecordSourceError),
    }
}

/// The record that a line of the record source makes.
pub fn parse_line(line: &str) -> (res: Result<Option<DnsRecord>, DnsError>)
    ensures
        match res {
            Ok(Some(record)) => record_of(line_fields(line@)) == Ok::<
                Option<DnsRecordView>,
                DnsError,
            >(Some(record@)),
            Ok(None) => record_of(line_fields(line@)) == Ok::<Option<DnsRecordView>, DnsError>(
                None,
            ),
            Err(e) => record_of(line_fields(line@)) == Err::<Option<DnsRecordView>, DnsError>(e),
        },
{
    let fields: Vec<String> = split_line(line);
    record_from_fields(&fields)
}

/// The records that the lines of a record source make.
pub fn load_records(lines: &Vec<String>) -> (res: Result<Vec<DnsRecord>, DnsError>)
    ensures
        match res {
            Ok(records) => records_of(texts(lines@), lines@.len()) == Ok::<
                Seq<DnsRecordView>,
                DnsError,
            >(record_views(records@)),
            Err(e) => records_of(texts(lines@), lines@.len()) == Err::<
                Seq<DnsRecordView>,
                DnsError,
            >(e),
        },
{
    let mut records: Vec<DnsRecord> = Vec::new();
    let mut at: usize = 0;
    assert(record_views(records@) == Seq::<DnsRecordView>::empty());
    while at < lines.len()
        invariant
            at <= lines@.len(),
            records_of(texts(lines@), at as nat) == Ok::<Seq<DnsRecordView>, DnsError>(
                record_views(records@),
            ),
        decreases lines@.len() - at,
    {
        let ghost before = record_views(records@);
        match parse_line(lines[at].as_str()) {
            Ok(Some(record)) => {
                records.push(record);
                assert(record_views(records@) == before.push(record@));
            },
            Ok(None) => {},
            Err(e) => {
                proof {
                    lemma_refusal_stays(texts(lines@), (at + 1) as nat, lines@.len());
                }
                return Err(e);
            },
        }
        at += 1;
    }
    Ok(records)
}

} // verus!
