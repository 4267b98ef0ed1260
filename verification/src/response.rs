//! Validating and decoding a received message.

use crate::error::DnsError;
use crate::message::question_views;
use crate::message::record_views;
use crate::message::Header;
use crate::message::MessageView;
use crate::message::Question;
use crate::message::QuestionView;
use crate::message::RData;
use crate::message::RDataView;
use crate::message::RecordView;
use crate::message::ResolutionResult;
use crate::message::ResourceRecord;
use crate::message::HEADER_LEN;
use crate::message::TYPE_A;
use crate::name::decode_name;
use crate::name::decode_spec;
use vstd::prelude::*;
use vstd::slice::slice_subrange;
use vstd::slice::slice_to_vec;

verus! {

/// The bytes of a question behind its name: type and class.
pub const QUESTION_FIXED_LEN: usize = 4;

/// The bytes of a record between its name and its data: type, class, time
/// to live and data length.
pub const RECORD_FIXED_LEN: usize = 10;

/// The length of the data of an IPv4 address record.
pub const IPV4_LEN: u16 = 4;

/// What reading part of a message yields in the model: the questions read
/// and the offset behind them, or the reason for the failure.
pub type QuestionWalk = Result<(Seq<QuestionView>, int), DnsError>;

/// What reading part of a message yields in the model: the records read and
/// the offset behind them, or the reason for the failure.
pub type RecordWalk = Result<(Seq<RecordView>, int), DnsError>;

/// The 16-bit number whose two bytes stand at `pos`, most significant
/// first.
pub open spec fn u16_at(buf: Seq<u8>, pos: int) -> u16 {
    (buf[pos] * 256 + buf[pos + 1]) as u16
}

/// The 32-bit number whose four bytes stand at `pos`, most significant
/// first.
pub open spec fn u32_at(buf: Seq<u8>, pos: int) -> u32 {
    (((buf[pos] * 256 + buf[pos + 1]) * 256 + buf[pos + 2]) * 256 + buf[pos + 3]) as u32
}

/// The header that the first twelve bytes of `buf` hold.
pub open spec fn header_at(buf: Seq<u8>) -> Header {
    Header {
        id: u16_at(buf, 0),
        flags: u16_at(buf, 2),
        question_count: u16_at(buf, 4),
        answer_count: u16_at(buf, 6),
        authority_count: u16_at(buf, 8),
        additional_count: u16_at(buf, 10),
    }
}

/// The question that starts at `pos`, with the offset behind it: a name,
/// then type and class.
pub open spec fn question_at(buf: Seq<u8>, pos: int) -> Result<(QuestionView, int), DnsError> {
    match decode_spec(buf, pos) {
        Err(e) => Err(e),
        Ok((name, next)) => if next + QUESTION_FIXED_LEN > buf.len() {
            Err(DnsError::Truncated)
        } else {
            Ok(
                (
                    QuestionView { name, qtype: u16_at(buf, next), qclass: u16_at(buf, next + 2) },
                    next + QUESTION_FIXED_LEN,
                ),
            )
        },
    }
}

/// The data of a record of type `rtype`, given its bytes.
pub open spec fn rdata_of(rtype: u16, bytes: Seq<u8>) -> RDataView {
    if rtype == TYPE_A {
        RDataView::Ipv4(bytes)
    } else {
        RDataView::Opaque(bytes)
    }
}

/// The record that starts at `pos`, with the offset behind it: a name,
/// then type, class, time to live and data length, then the data. An
/// address record whose data is not four bytes long is malformed; data
/// that the buffer does not hold in full makes the record truncated.
pub open spec fn record_at(buf: Seq<u8>, pos: int) -> Result<(RecordView, int), DnsError> {
    match decode_spec(buf, pos) {
        Err(e) => Err(e),
        Ok((name, next)) => if next + RECORD_FIXED_LEN > buf.len() {
            Err(DnsError::Truncated)
        } else {
            let rtype = u16_at(buf, next);
            let len = u16_at(buf, next + 8);
            let data = next + RECORD_FIXED_LEN;
            if rtype == TYPE_A && len != IPV4_LEN {
                Err(DnsError::MalformedRecord)
            } else if data + len > buf.len() {
                Err(DnsError::Truncated)
            } else {
                Ok(
                    (
                        RecordView {
                            name,
                            rtype,
                            class: u16_at(buf, next + 2),
                            ttl: u32_at(buf, next + 4),
                            rdata: rdata_of(rtype, buf.subrange(data, data + len)),
                        },
                        data + len,
                    ),
                )
            }
        },
    }
}

/// The first `count` questions of a message, which stand behind its header.
/// The first failure is the failure of the whole.
pub open spec fn questions_upto(buf: Seq<u8>, count: nat) -> QuestionWalk
    decreases count,
{
    if count == 0 {
        Ok((Seq::empty(), HEADER_LEN as int))
    } else {
        match questions_upto(buf, (count - 1) as nat) {
            Err(e) => Err(e),
            Ok((questions, pos)) => match question_at(buf, pos) {
                Err(e) => Err(e),
                Ok((question, next)) => Ok((questions.push(question), next)),
            },
        }
    }
}

/// The first `count` records from `start` on. The first failure is the
/// failure of the whole.
pub open spec fn records_upto(buf: Seq<u8>, start: int, count: nat) -> RecordWalk
    decreases count,
{
    if count == 0 {
        Ok((Seq::empty(), start))
    } else {
        match records_upto(buf, start, (count - 1) as nat) {
            Err(e) => Err(e),
            Ok((records, pos)) => match record_at(buf, pos) {
                Err(e) => Err(e),
                Ok((record, next)) => Ok((records.push(record), next)),
            },
        }
    }
}

/// What a received message holds.
///
/// A buffer of fewer than twelve bytes is truncated. Behind the header
/// stand as many questions as it declares, then its answer records, then
/// its authority and additional records, which are read like the answers
/// and not kept. The first failure among them is the failure of the
/// message. Bytes behind the last record are a count mismatch. The response
/// code plays no part.
pub open spec fn parse_spec(buf: Seq<u8>) -> Result<MessageView, DnsError> {
    if buf.len() < HEADER_LEN {
        Err(DnsError::Truncated)
    } else {
        let header = header_at(buf);
        match questions_upto(buf, header.question_count as nat) {
            Err(e) => Err(e),
            Ok((questions, answers_at)) => match records_upto(
                buf,
                answers_at,
                header.answer_count as nat,
            ) {
                Err(e) => Err(e),
                Ok((answers, rest_at)) => match records_upto(
                    buf,
                    rest_at,
                    (header.authority_count + header.additional_count) as nat,
                ) {
                    Err(e) => Err(e),
                    Ok((_, end)) => if end != buf.len() {
                        Err(DnsError::CountMismatch)
                    } else {
                        Ok(MessageView { header, questions, answers })
                    },
                },
            },
        }
    }
}

/// Once some questions cannot be read, more of them cannot either, for the
/// same reason.
pub(crate) proof fn lemma_questions_fail(buf: Seq<u8>, failed: nat, count: nat, e: DnsError)
    requires
        failed <= count,
        questions_upto(buf, failed) == QuestionWalk::Err(e),
    ensures
        questions_upto(buf, count) == QuestionWalk::Err(e),
    decreases count,
{
    if failed < count {
        lemma_questions_fail(buf, failed, (count - 1) as nat, e);
    }
}

/// Once some records cannot be read, more of them cannot either, for the
/// same reason.
pub(crate) proof fn lemma_records_fail(
    buf: Seq<u8>,
    start: int,
    failed: nat,
    count: nat,
    e: DnsError,
)
    requires
        failed <= count,
        records_upto(buf, start, failed) == RecordWalk::Err(e),
    ensures
        records_upto(buf, start, count) == RecordWalk::Err(e),
    decreases count,
{
    if failed < count {
        lemma_records_fail(buf, start, failed, (count - 1) as nat, e);
    }
}

/// Reads the 16-bit number at `pos`.
fn read_u16(buf: &[u8], pos: usize) -> (value: u16)
    requires
        pos + 2 <= buf@.len(),
    ensures
        value == u16_at(buf@, pos as int),
{
    buf[pos] as u16 * 256 + buf[pos + 1] as u16
}

/// Reads the 32-bit number at `pos`.
fn read_u32(buf: &[u8], pos: usize) -> (value: u32)
    requires
        pos + 4 <= buf@.len(),
    ensures
        value == u32_at(buf@, pos as int),
{
    ((buf[pos] as u32 * 256 + buf[pos + 1] as u32) * 256 + buf[pos + 2] as u32) * 256 + buf[pos
        + 3] as u32
}

/// Reads the header of a message.
fn parse_header(buf: &[u8]) -> (header: Header)
    requires
        buf@.len() >= HEADER_LEN,
    ensures
        header == header_at(buf@),
{
    Header {
        id: read_u16(buf, 0),
        flags: read_u16(buf, 2),
        question_count: read_u16(buf, 4),
        answer_count: read_u16(buf, 6),
        authority_count: read_u16(buf, 8),
        additional_count: read_u16(buf, 10),
    }
}

/// Reads the question at `pos`.
fn parse_question(buf: &[u8], pos: usize) -> (r: Result<(Question, usize), DnsError>)
    ensures
        match r {
            Ok((question, next)) => question_at(buf@, pos as int) == Ok::<
                (QuestionView, int),
                DnsError,
            >((question@, next as int)) && pos < next <= buf@.len(),
            Err(e) => question_at(buf@, pos as int) == Err::<(QuestionView, int), DnsError>(e),
        },
{
    let (name, next) = match decode_name(buf, pos) {
        Ok(found) => found,
        Err(e) => {
            return Err(e);
        },
    };
    if buf.len() - next < QUESTION_FIXED_LEN {
        return Err(DnsError::Truncated);
    }
    let qtype = read_u16(buf, next);
    let qclass = read_u16(buf, next + 2);
    Ok((Question { name, qtype, qclass }, next + QUESTION_FIXED_LEN))
}

/// Reads the record at `pos`.
fn parse_record(buf: &[u8], pos: usize) -> (r: Result<(ResourceRecord, usize), DnsError>)
    ensures
        match r {
            Ok((record, next)) => record_at(buf@, pos as int) == Ok::<(RecordView, int), DnsError>(
                (record@, next as int),
            ) && pos < next <= buf@.len(),
            Err(e) => record_at(buf@, pos as int) == Err::<(RecordView, int), DnsError>(e),
        },
{
    let (name, next) = match decode_name(buf, pos) {
        Ok(found) => found,
        Err(e) => {
            return Err(e);
        },
    };
    if buf.len() - next < RECORD_FIXED_LEN {
        return Err(DnsError::Truncated);
    }
    let rtype = read_u16(buf, next);
    let class = read_u16(buf, next + 2);
    let ttl = read_u32(buf, next + 4);
    let len = read_u16(buf, next + 8);
    let data = next + RECORD_FIXED_LEN;
    if rtype == TYPE_A && len != IPV4_LEN {
        return Err(DnsError::MalformedRecord);
    }
    if buf.len() - data < len as usize {
        return Err(DnsError::Truncated);
    }
    let end = data + len as usize;
    let rdata = if rtype == TYPE_A {
        let octets = [buf[data], buf[data + 1], buf[data + 2], buf[data + 3]];
        assert(octets@ =~= buf@.subrange(data as int, end as int));
        RData::Ipv4(octets)
    } else {
        RData::Opaque(slice_to_vec(slice_subrange(buf, data, end)))
    };
    Ok((ResourceRecord { name, rtype, class, ttl, rdata }, end))
}

/// Reads `count` records from `start` on and keeps them.
fn parse_records(buf: &[u8], start: usize, count: u16) -> (r: Result<
    (Vec<ResourceRecord>, usize),
    DnsError,
>)
    requires
        start <= buf@.len(),
    ensures
        match r {
            Ok((records, next)) => records_upto(buf@, start as int, count as nat) == RecordWalk::Ok(
                (record_views(records@), next as int),
            ) && start <= next <= buf@.len(),
            Err(e) => records_upto(buf@, start as int, count as nat) == RecordWalk::Err(e),
        },
{
    let mut records: Vec<ResourceRecord> = Vec::new();
    let mut pos = start;
    let mut done: u16 = 0;
    assert(record_views(records@) == Seq::<RecordView>::empty());
    while done < count
        invariant
            done <= count,
            start <= pos <= buf@.len(),
            records_upto(buf@, start as int, done as nat) == RecordWalk::Ok(
                (record_views(records@), pos as int),
            ),
        decreases count - done,
    {
        match parse_record(buf, pos) {
            Err(e) => {
                proof {
                    lemma_records_fail(buf@, start as int, (done + 1) as nat, count as nat, e);
                }
                return Err(e);
            },
            Ok((record, next)) => {
                let ghost before = records@;
                records.push(record);
                assert(record_views(records@) == record_views(before).push(record@));
                pos = next;
            },
        }
        done += 1;
    }
    Ok((records, pos))
}

/// Reads `count` records from `start` on and keeps none of them.
fn skip_records(buf: &[u8], start: usize, count: u32) -> (r: Result<usize, DnsError>)
    requires
        start <= buf@.len(),
    ensures
        match r {
            Ok(next) => records_upto(buf@, start as int, count as nat) matches Ok((_, end))
                && end == next && start <= next <= buf@.len(),
            Err(e) => records_upto(buf@, start as int, count as nat) == RecordWalk::Err(e),
        },
{
    let mut pos = start;
    let mut done: u32 = 0;
    while done < count
        invariant
            done <= count,
            start <= pos <= buf@.len(),
            records_upto(buf@, start as int, done as nat) matches Ok((_, end)) && end == pos,
        decreases count - done,
    {
        match parse_record(buf, pos) {
            Err(e) => {
                proof {
                    lemma_records_fail(buf@, start as int, (done + 1) as nat, count as nat, e);
                }
                return Err(e);
            },
            Ok((_, next)) => {
                pos = next;
            },
        }
        done += 1;
    }
    Ok(pos)
}

/// Validates and decodes a received message: its header, the questions it
/// echoes and its answer records. The authority and additional records are
/// read, so that a flaw in them is found, and not kept. Nothing of a
/// message is handed out unless all of it could be read.
pub fn parse_response(buf: &[u8]) -> (r: Result<ResolutionResult, DnsError>)
    ensures
        match r {
            Ok(message) => parse_spec(buf@) == Ok::<MessageView, DnsError>(message@),
            Err(e) => parse_spec(buf@) == Err::<MessageView, DnsError>(e),
        },
{
    if buf.len() < HEADER_LEN {
        return Err(DnsError::Truncated);
    }
    let header = parse_header(buf);
    let mut questions: Vec<Question> = Vec::new();
    let mut pos = HEADER_LEN;
    let mut done: u16 = 0;
    assert(question_views(questions@) == Seq::<QuestionView>::empty());
    while done < header.question_count
        invariant
            header == header_at(buf@),
            done <= header.question_count,
            HEADER_LEN <= pos <= buf@.len(),
            questions_upto(buf@, done as nat) == QuestionWalk::Ok(
                (question_views(questions@), pos as int),
            ),
        decreases header.question_count - done,
    {
        match parse_question(buf, pos) {
            Err(e) => {
                proof {
                    lemma_questions_fail(
                        buf@,
                        (done + 1) as nat,
                        header.question_count as nat,
                        e,
                    );
                }
                return Err(e);
            },
            Ok((question, next)) => {
                let ghost before = questions@;
                questions.push(question);
                assert(question_views(questions@) == question_views(before).push(question@));
                pos = next;
            },
        }
        done += 1;
    }
    let (answers, rest_at) = match parse_records(buf, pos, header.answer_count) {
        Ok(found) => found,
        Err(e) => {
            return Err(e);
        },
    };
    let others = header.authority_count as u32 + header.additional_count as u32;
    let end = match skip_records(buf, rest_at, others) {
        Ok(found) => found,
        Err(e) => {
            return Err(e);
        },
    };
    if end != buf.len() {
        return Err(DnsError::CountMismatch);
    }
    Ok(ResolutionResult { header, questions, answers })
}

} // verus!
