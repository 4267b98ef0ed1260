//! What holds of a whole exchange: of the query that is built, read as a
//! message, and of the steps that a lookup takes.

use crate::buffer::be16;
use crate::error::DnsError;
use crate::message::Header;
use crate::message::MessageView;
use crate::message::QuestionView;
use crate::message::CLASS_IN;
use crate::message::HEADER_LEN;
use crate::message::TYPE_A;
use crate::name::encode_spec;
use crate::name::valid_name;
use crate::name_laws::encoded_name_decodes_in_place;
use crate::pending::dispatch_spec;
use crate::query::query_bytes;
use crate::query::query_flags;
use crate::resolver::classify_spec;
use crate::resolver::is_terminal;
use crate::resolver::step_spec;
use crate::resolver::ActionView;
use crate::resolver::Event;
use crate::resolver::StateView;
use crate::response::header_at;
use crate::response::parse_spec;
use crate::response::questions_upto;
use crate::response::u16_at;
use vstd::prelude::*;
use vstd::string::StringSliceAdditionalSpecFns;

verus! {

/// The message that a query for `name` is.
pub open spec fn query_message(name: Seq<u8>, transaction_id: u16, recursion_desired: bool)
    -> MessageView {
    MessageView {
        header: Header {
            id: transaction_id,
            flags: query_flags(recursion_desired),
            question_count: 1,
            answer_count: 0,
            authority_count: 0,
            additional_count: 0,
        },
        questions: seq![QuestionView { name, qtype: TYPE_A, qclass: CLASS_IN }],
        answers: Seq::empty(),
    }
}

/// The two bytes of a number, read back, are the number.
proof fn lemma_be16_read(buf: Seq<u8>, pos: int, value: u16)
    requires
        0 <= pos,
        pos + 2 <= buf.len(),
        buf.subrange(pos, pos + 2) == be16(value),
    ensures
        u16_at(buf, pos) == value,
{
}

/// A query that is built parses as the message it was built to be: the
/// transaction id and flags it was given, one question for the address
/// records of its name in class IN, and nothing else.
pub proof fn query_parses_back(name: Seq<u8>, transaction_id: u16, recursion_desired: bool)
    requires
        valid_name(name),
    ensures
        parse_spec(query_bytes(name, transaction_id, recursion_desired)) == Ok::<
            MessageView,
            DnsError,
        >(query_message(name, transaction_id, recursion_desired)),
{
    let buf = query_bytes(name, transaction_id, recursion_desired);
    let wire = encode_spec(name);
    let next = HEADER_LEN + wire.len();
    assert(buf.subrange(0, 2) == be16(transaction_id));
    assert(buf.subrange(2, 4) == be16(query_flags(recursion_desired)));
    assert(buf.subrange(4, 6) == be16(1));
    assert(buf.subrange(6, 8) == be16(0));
    assert(buf.subrange(8, 10) == be16(0));
    assert(buf.subrange(10, 12) == be16(0));
    assert(buf.subrange(HEADER_LEN as int, next) == wire);
    assert(buf.subrange(next, next + 2) == be16(TYPE_A));
    assert(buf.subrange(next + 2, next + 4) == be16(CLASS_IN));
    lemma_be16_read(buf, 0, transaction_id);
    lemma_be16_read(buf, 2, query_flags(recursion_desired));
    lemma_be16_read(buf, 4, 1);
    lemma_be16_read(buf, 6, 0);
    lemma_be16_read(buf, 8, 0);
    lemma_be16_read(buf, 10, 0);
    lemma_be16_read(buf, next, TYPE_A);
    lemma_be16_read(buf, next + 2, CLASS_IN);
    encoded_name_decodes_in_place(buf, HEADER_LEN as int, name);
    assert(questions_upto(buf, 0) == Ok::<(Seq<QuestionView>, int), DnsError>(
        (Seq::empty(), HEADER_LEN as int),
    ));
}

/// How far a lookup has come: idle, sent, waiting, over.
pub open spec fn rank(state: StateView) -> nat {
    match state {
        StateView::Idle => 0,
        StateView::Sent { .. } => 1,
        StateView::AwaitingResponse { .. } => 2,
        _ => 3,
    }
}

/// A lookup that is over stays as it is, whatever happens.
pub proof fn finished_lookup_stays(state: StateView, event: Event)
    requires
        is_terminal(state),
    ensures
        step_spec(state, event) == (state, ActionView::Finish),
{
}

/// A lookup never goes back: a step leaves it where it is, which is then
/// said by `Ignore` or `Finish`, or takes it further.
pub proof fn lookup_moves_forward(state: StateView, event: Event)
    ensures
        rank(step_spec(state, event).0) >= rank(state),
        rank(step_spec(state, event).0) == rank(state) ==> step_spec(state, event).0 == state && (
        step_spec(state, event).1 is Ignore || step_spec(state, event).1 is Finish),
        step_spec(state, event).1 is Finish <==> is_terminal(step_spec(state, event).0),
{
}

/// What is sent for a lookup is the query under the id that the lookup
/// then waits for: read as a message, it carries that id and asks for the
/// address records of the domain.
pub proof fn lookup_sends_its_query(event: Event)
    requires
        event is Start,
        valid_name(event->domain.spec_bytes()),
    ensures
        step_spec(StateView::Idle, event).0 == (StateView::Sent { id: event->transaction_id }),
        step_spec(StateView::Idle, event).1 matches ActionView::Send(bytes) && parse_spec(bytes)
            == Ok::<MessageView, DnsError>(
            query_message(
                event->domain.spec_bytes(),
                event->transaction_id,
                event->recursion_desired,
            ),
        ),
{
    query_parses_back(
        event->domain.spec_bytes(),
        event->transaction_id,
        event->recursion_desired,
    );
}

/// A lookup matches only on a datagram that parses, carries the id asked
/// under and reports no error; it then holds all that the datagram held.
pub proof fn match_is_earned(id: u16, buf: Seq<u8>)
    ensures
        classify_spec(id, buf) matches StateView::Matched(message) ==> parse_spec(buf) == Ok::<
            MessageView,
            DnsError,
        >(message) && message.header.id == id && message.header.spec_rcode() == 0,
        classify_spec(id, buf) is Matched <==> parse_spec(buf) is Ok && header_at(buf).id == id
            && header_at(buf).spec_rcode() == 0,
{
}

/// A datagram ends at most one lookup, and that one for good: the lookup
/// it is delivered to was pending under the datagram's id, is over, is no
/// mismatch, and has left the table, so that the same datagram, come
/// again, is dropped.
pub proof fn datagram_is_delivered_once(pending: Set<u16>, buf: Seq<u8>)
    ensures
        dispatch_spec(pending, buf).1 matches Some((id, state)) ==> pending.contains(id)
            && !dispatch_spec(pending, buf).0.contains(id) && is_terminal(state) && !(
        state is Mismatched) && dispatch_spec(dispatch_spec(pending, buf).0, buf) == (
            dispatch_spec(pending, buf).0,
            None::<(u16, StateView)>,
        ),
{
}

/// A datagram that comes for a lookup that was cancelled is dropped, and
/// the table stays as it is.
pub proof fn late_datagram_is_dropped(pending: Set<u16>, id: u16, buf: Seq<u8>)
    requires
        buf.len() >= 2,
        u16_at(buf, 0) == id,
    ensures
        dispatch_spec(pending.remove(id), buf) == (pending.remove(id), None::<(u16, StateView)>),
{
}

/// The lookups that a datagram does not answer are not touched by it.
pub proof fn other_lookups_stay_pending(pending: Set<u16>, buf: Seq<u8>, other: u16)
    requires
        pending.contains(other),
        buf.len() < 2 || u16_at(buf, 0) != other,
    ensures
        dispatch_spec(pending, buf).0.contains(other),
{
}

} // verus!
