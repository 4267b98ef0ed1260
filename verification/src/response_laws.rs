//! What holds of the response parser for every buffer.

use crate::error::DnsError;
use crate::message::MessageView;
use crate::message::QuestionView;
use crate::message::RDataView;
use crate::message::RecordView;
use crate::message::HEADER_LEN;
use crate::message::TYPE_A;
use crate::name::decode_spec;
use crate::name::MAX_NAME_LEN;
use crate::name_laws::decoded_name_is_bounded;
use crate::name_laws::lemma_decode_cut;
use crate::name_laws::lemma_decode_end;
use crate::response::header_at;
use crate::response::parse_spec;
use crate::response::question_at;
use crate::response::questions_upto;
use crate::response::record_at;
use crate::response::records_upto;
use crate::response::u16_at;
use crate::response::QuestionWalk;
use crate::response::RecordWalk;
use crate::response::IPV4_LEN;
use crate::response::RECORD_FIXED_LEN;
use vstd::prelude::*;

verus! {

/// A question that is read ends behind where it began and within the
/// buffer.
pub(crate) proof fn lemma_question_end(buf: Seq<u8>, pos: int)
    requires
        question_at(buf, pos) is Ok,
    ensures
        pos < question_at(buf, pos)->Ok_0.1 <= buf.len(),
{
    lemma_decode_end(buf, pos);
}

/// A question that is read from a buffer is read alike from a shorter one,
/// unless it misses a byte there.
pub(crate) proof fn lemma_question_cut(buf: Seq<u8>, cut: int, pos: int)
    requires
        0 <= cut <= buf.len(),
        0 <= pos,
        question_at(buf, pos) is Ok,
    ensures
        question_at(buf.take(cut), pos) == question_at(buf, pos) || question_at(
            buf.take(cut),
            pos,
        ) == Err::<(QuestionView, int), DnsError>(DnsError::Truncated),
{
    lemma_decode_cut(buf, cut, pos);
    lemma_decode_end(buf, pos);
}

/// A record that is read ends behind where it began and within the buffer.
pub(crate) proof fn lemma_record_end(buf: Seq<u8>, pos: int)
    requires
        record_at(buf, pos) is Ok,
    ensures
        pos < record_at(buf, pos)->Ok_0.1 <= buf.len(),
{
    lemma_decode_end(buf, pos);
}

/// A record that is read from a buffer is read alike from a shorter one,
/// unless it misses a byte there.
pub(crate) proof fn lemma_record_cut(buf: Seq<u8>, cut: int, pos: int)
    requires
        0 <= cut <= buf.len(),
        0 <= pos,
        record_at(buf, pos) is Ok,
    ensures
        record_at(buf.take(cut), pos) == record_at(buf, pos) || record_at(buf.take(cut), pos)
            == Err::<(RecordView, int), DnsError>(DnsError::Truncated),
{
    lemma_decode_cut(buf, cut, pos);
    lemma_decode_end(buf, pos);
    let short = buf.take(cut);
    if decode_spec(short, pos) == decode_spec(buf, pos) {
        let next = decode_spec(buf, pos)->Ok_0.1;
        let data = next + RECORD_FIXED_LEN;
        if data <= cut {
            let len = u16_at(buf, next + 8);
            if data + len <= cut {
                assert(short.subrange(data, data + len) == buf.subrange(data, data + len));
            }
        }
    }
}

/// Questions that are read end within the buffer, and there are as many
/// as were asked for.
pub(crate) proof fn lemma_questions_end(buf: Seq<u8>, count: nat)
    requires
        questions_upto(buf, count) is Ok,
        buf.len() >= HEADER_LEN,
    ensures
        HEADER_LEN <= questions_upto(buf, count)->Ok_0.1 <= buf.len(),
        questions_upto(buf, count)->Ok_0.0.len() == count,
    decreases count,
{
    if count > 0 {
        lemma_questions_end(buf, (count - 1) as nat);
        lemma_question_end(buf, questions_upto(buf, (count - 1) as nat)->Ok_0.1);
    }
}

/// Questions that are read from a buffer are read alike from a shorter
/// one, unless one of them misses a byte there.
pub(crate) proof fn lemma_questions_cut(buf: Seq<u8>, cut: int, count: nat)
    requires
        HEADER_LEN <= cut <= buf.len(),
        questions_upto(buf, count) is Ok,
    ensures
        questions_upto(buf.take(cut), count) == questions_upto(buf, count) || questions_upto(
            buf.take(cut),
            count,
        ) == QuestionWalk::Err(DnsError::Truncated),
    decreases count,
{
    if count > 0 {
        let before = (count - 1) as nat;
        lemma_questions_cut(buf, cut, before);
        lemma_questions_end(buf, before);
        if questions_upto(buf.take(cut), before) == questions_upto(buf, before) {
            lemma_question_cut(buf, cut, questions_upto(buf, before)->Ok_0.1);
        }
    }
}

/// Records that are read end within the buffer, and there are as many as
/// were asked for.
pub(crate) proof fn lemma_records_end(buf: Seq<u8>, start: int, count: nat)
    requires
        records_upto(buf, start, count) is Ok,
        0 <= start <= buf.len(),
    ensures
        start <= records_upto(buf, start, count)->Ok_0.1 <= buf.len(),
        records_upto(buf, start, count)->Ok_0.0.len() == count,
    decreases count,
{
    if count > 0 {
        lemma_records_end(buf, start, (count - 1) as nat);
        lemma_record_end(buf, records_upto(buf, start, (count - 1) as nat)->Ok_0.1);
    }
}

/// Records that are read from a buffer are read alike from a shorter one,
/// unless one of them misses a byte there.
pub(crate) proof fn lemma_records_cut(buf: Seq<u8>, cut: int, start: int, count: nat)
    requires
        0 <= cut <= buf.len(),
        0 <= start <= buf.len(),
        records_upto(buf, start, count) is Ok,
    ensures
        records_upto(buf.take(cut), start, count) == records_upto(buf, start, count)
            || records_upto(buf.take(cut), start, count) == RecordWalk::Err(DnsError::Truncated),
    decreases count,
{
    if count > 0 {
        let before = (count - 1) as nat;
        lemma_records_cut(buf, cut, start, before);
        lemma_records_end(buf, start, before);
        if records_upto(buf.take(cut), start, before) == records_upto(buf, start, before) {
            lemma_record_cut(buf, cut, records_upto(buf, start, before)->Ok_0.1);
        }
    }
}

/// Truncation determinism: a message that parses, cut short at any byte
/// boundary, is truncated. No shorter buffer parses as another message.
pub proof fn cut_message_is_truncated(buf: Seq<u8>, cut: int)
    requires
        parse_spec(buf) is Ok,
        0 <= cut < buf.len(),
    ensures
        parse_spec(buf.take(cut)) == Err::<MessageView, DnsError>(DnsError::Truncated),
{
    let short = buf.take(cut);
    if cut >= HEADER_LEN {
        let header = header_at(buf);
        assert(header_at(short) == header);
        let questions = header.question_count as nat;
        let answers = header.answer_count as nat;
        let others = (header.authority_count + header.additional_count) as nat;
        lemma_questions_cut(buf, cut, questions);
        lemma_questions_end(buf, questions);
        if questions_upto(short, questions) == questions_upto(buf, questions) {
            let answers_at = questions_upto(buf, questions)->Ok_0.1;
            lemma_records_cut(buf, cut, answers_at, answers);
            lemma_records_end(buf, answers_at, answers);
            if records_upto(short, answers_at, answers) == records_upto(buf, answers_at, answers) {
                let rest_at = records_upto(buf, answers_at, answers)->Ok_0.1;
                lemma_records_cut(buf, cut, rest_at, others);
                lemma_records_end(buf, rest_at, others);
                if records_upto(short, rest_at, others) == records_upto(buf, rest_at, others) {
                    lemma_questions_end(short, questions);
                    lemma_records_end(short, answers_at, answers);
                    lemma_records_end(short, rest_at, others);
                }
            }
        }
    }
}

/// The data of a record fits its type: four bytes of address where the
/// type is A, opaque bytes where it is not.
pub open spec fn record_fits(record: RecordView) -> bool {
    match record.rdata {
        RDataView::Ipv4(octets) => record.rtype == TYPE_A && octets.len() == IPV4_LEN,
        RDataView::Opaque(_) => record.rtype != TYPE_A,
    }
}

/// A message holds what its header declares: as many questions and answers
/// as the counts say, each with a name of at most 255 bytes, each answer
/// with data that fits its type.
pub open spec fn well_formed(message: MessageView) -> bool {
    &&& message.questions.len() == message.header.question_count
    &&& message.answers.len() == message.header.answer_count
    &&& forall|i: int|
        0 <= i < message.questions.len() ==> (#[trigger] message.questions[i]).name.len()
            <= MAX_NAME_LEN
    &&& forall|i: int|
        0 <= i < message.answers.len() ==> (#[trigger] message.answers[i]).name.len()
            <= MAX_NAME_LEN && record_fits(message.answers[i])
}

/// Every question that is read has a name within the limit.
pub(crate) proof fn lemma_questions_fit(buf: Seq<u8>, count: nat)
    requires
        questions_upto(buf, count) is Ok,
    ensures
        forall|i: int|
            0 <= i < questions_upto(buf, count)->Ok_0.0.len() ==> (#[trigger] questions_upto(
                buf,
                count,
            )->Ok_0.0[i]).name.len() <= MAX_NAME_LEN,
    decreases count,
{
    if count > 0 {
        let before = questions_upto(buf, (count - 1) as nat)->Ok_0;
        lemma_questions_fit(buf, (count - 1) as nat);
        decoded_name_is_bounded(buf, before.1);
    }
}

/// Every record that is read has a name within the limit and data that
/// fits its type.
pub(crate) proof fn lemma_records_fit(buf: Seq<u8>, start: int, count: nat)
    requires
        records_upto(buf, start, count) is Ok,
    ensures
        forall|i: int|
            0 <= i < records_upto(buf, start, count)->Ok_0.0.len() ==> (#[trigger] records_upto(
                buf,
                start,
                count,
            )->Ok_0.0[i]).name.len() <= MAX_NAME_LEN && record_fits(
                records_upto(buf, start, count)->Ok_0.0[i],
            ),
    decreases count,
{
    if count > 0 {
        let before = records_upto(buf, start, (count - 1) as nat)->Ok_0;
        lemma_records_fit(buf, start, (count - 1) as nat);
        decoded_name_is_bounded(buf, before.1);
    }
}

/// Whatever parses is well formed: it has the header that the buffer
/// begins with, and the counts of that header are the numbers of questions
/// and answers that it holds.
pub proof fn parsed_message_is_well_formed(buf: Seq<u8>)
    requires
        parse_spec(buf) is Ok,
    ensures
        well_formed(parse_spec(buf)->Ok_0),
        parse_spec(buf)->Ok_0.header == header_at(buf),
{
    let header = header_at(buf);
    let answers_at = questions_upto(buf, header.question_count as nat)->Ok_0.1;
    lemma_questions_end(buf, header.question_count as nat);
    lemma_questions_fit(buf, header.question_count as nat);
    lemma_records_end(buf, answers_at, header.answer_count as nat);
    lemma_records_fit(buf, answers_at, header.answer_count as nat);
}

} // verus!
