//! The decisions of one lookup: a state machine that the caller drives with
//! what happened on the transport.

use crate::error::DnsError;
use crate::message::address_views;
use crate::message::addresses_of;
use crate::message::MessageView;
use crate::message::ResolutionResult;
use crate::query::build_query;
use crate::query::query_bytes;
use crate::name::valid_name;
use crate::response::parse_response;
use crate::response::parse_spec;
use vstd::prelude::*;
use vstd::string::StringSliceAdditionalSpecFns;

verus! {

/// Where a lookup stands. A lookup begins idle, sends its query, waits for
/// the response and ends in one of the five last states, which it never
/// leaves.
#[derive(Clone, Debug, PartialEq, Eq)]
pub enum ResolverState {
    /// Nothing was asked yet.
    Idle,
    /// The query with this transaction id was handed to the transport.
    Sent { id: u16 },
    /// The query is out, and the response to it is awaited.
    AwaitingResponse { id: u16 },
    /// The response to the query came, and the server reported no error.
    Matched(ResolutionResult),
    /// A response came that carries another transaction id. It is dropped.
    Mismatched,
    /// No response came in time.
    TimedOut,
    /// The response came with this response code, which is not zero.
    ServerError(u8),
    /// The query could not be built or the datagram could not be read.
    ProtocolError(DnsError),
}

/// Where a lookup stands, in the model.
pub enum StateView {
    Idle,
    Sent { id: u16 },
    AwaitingResponse { id: u16 },
    Matched(MessageView),
    Mismatched,
    TimedOut,
    ServerError(u8),
    ProtocolError(DnsError),
}

impl View for ResolverState {
    type V = StateView;

    open spec fn view(&self) -> StateView {
        match self {
            ResolverState::Idle => StateView::Idle,
            ResolverState::Sent { id } => StateView::Sent { id: *id },
            ResolverState::AwaitingResponse { id } => StateView::AwaitingResponse { id: *id },
            ResolverState::Matched(message) => StateView::Matched(message@),
            ResolverState::Mismatched => StateView::Mismatched,
            ResolverState::TimedOut => StateView::TimedOut,
            ResolverState::ServerError(code) => StateView::ServerError(*code),
            ResolverState::ProtocolError(e) => StateView::ProtocolError(*e),
        }
    }
}

/// What happened outside, as the caller reports it to the lookup.
#[derive(Clone, Copy, Debug)]
pub enum Event<'a> {
    /// The addresses of `domain` are asked for, under a transaction id of
    /// the caller's choosing.
    Start { domain: &'a str, transaction_id: u16, recursion_desired: bool },
    /// The transport has taken the query.
    QuerySent,
    /// A datagram has arrived.
    Received(&'a [u8]),
    /// The time allowed for the response is over.
    TimeExpired,
}

/// What the caller is to do next.
#[derive(Clone, Debug, PartialEq, Eq)]
pub enum Action {
    /// Hand these bytes to the transport.
    Send(Vec<u8>),
    /// Wait for a datagram, no longer than the time allowed.
    Receive,
    /// The lookup is over: its state says how it ended.
    Finish,
    /// The event has no meaning where the lookup stands: nothing changed.
    Ignore,
}

/// What the caller is to do next, in the model.
pub enum ActionView {
    Send(Seq<u8>),
    Receive,
    Finish,
    Ignore,
}

impl View for Action {
    type V = ActionView;

    open spec fn view(&self) -> ActionView {
        match self {
            Action::Send(bytes) => ActionView::Send(bytes@),
            Action::Receive => ActionView::Receive,
            Action::Finish => ActionView::Finish,
            Action::Ignore => ActionView::Ignore,
        }
    }
}

/// Whether a lookup in this state is over.
pub open spec fn is_terminal(state: StateView) -> bool {
    !(state is Idle || state is Sent || state is AwaitingResponse)
}

/// How a lookup that asked under `request_id` ends on the datagram `buf`.
///
/// A datagram that cannot be parsed is a protocol error of the parser's
/// kind. One that carries another transaction id is a mismatch. One with a
/// response code other than zero is a server error with that code. Any
/// other is the match, with all that it holds.
pub open spec fn classify_spec(request_id: u16, buf: Seq<u8>) -> StateView {
    match parse_spec(buf) {
        Err(e) => StateView::ProtocolError(e),
        Ok(message) => if message.header.id != request_id {
            StateView::Mismatched
        } else if message.header.spec_rcode() != 0 {
            StateView::ServerError(message.header.spec_rcode())
        } else {
            StateView::Matched(message)
        },
    }
}

/// The state that follows `state` on `event`, and what the caller is to do
/// then.
///
/// An idle lookup starts: with a valid domain it has its query sent, with
/// any other it ends as a protocol error. Once the query is sent it
/// waits. While it waits, a datagram ends it as `classify_spec` says, and
/// the end of the time allowed ends it as timed out. In a state that is
/// over every event finishes. Any other event is ignored.
pub open spec fn step_spec(state: StateView, event: Event) -> (StateView, ActionView) {
    match (state, event) {
        (StateView::Idle, Event::Start { domain, transaction_id, recursion_desired }) => {
            if valid_name(domain.spec_bytes()) {
                (
                    StateView::Sent { id: transaction_id },
                    ActionView::Send(
                        query_bytes(domain.spec_bytes(), transaction_id, recursion_desired),
                    ),
                )
            } else {
                (StateView::ProtocolError(DnsError::InvalidName), ActionView::Finish)
            }
        },
        (StateView::Sent { id }, Event::QuerySent) => (
            StateView::AwaitingResponse { id },
            ActionView::Receive,
        ),
        (StateView::AwaitingResponse { id }, Event::Received(buf)) => (
            classify_spec(id, buf@),
            ActionView::Finish,
        ),
        (StateView::AwaitingResponse { id }, Event::TimeExpired) => (
            StateView::TimedOut,
            ActionView::Finish,
        ),
        _ => if is_terminal(state) {
            (state, ActionView::Finish)
        } else {
            (state, ActionView::Ignore)
        },
    }
}

/// Decides how a lookup that asked under `request_id` ends on a datagram.
pub fn classify_response(request_id: u16, buf: &[u8]) -> (state: ResolverState)
    ensures
        state@ == classify_spec(request_id, buf@),
{
    match parse_response(buf) {
        Err(e) => ResolverState::ProtocolError(e),
        Ok(message) => {
            if message.header.id != request_id {
                ResolverState::Mismatched
            } else {
                let code = message.header.rcode();
                if code != 0 {
                    ResolverState::ServerError(code)
                } else {
                    ResolverState::Matched(message)
                }
            }
        },
    }
}

/// Takes a lookup one step on: from where it stands and what happened to
/// where it stands next and what the caller is to do.
pub fn step(state: ResolverState, event: Event) -> (next: (ResolverState, Action))
    ensures
        (next.0@, next.1@) == step_spec(state@, event),
{
    match state {
        ResolverState::Idle => match event {
            Event::Start { domain, transaction_id, recursion_desired } => {
                match build_query(domain, transaction_id, recursion_desired) {
                    Ok(bytes) => (ResolverState::Sent { id: transaction_id }, Action::Send(bytes)),
                    Err(e) => (ResolverState::ProtocolError(e), Action::Finish),
                }
            },
            _ => (ResolverState::Idle, Action::Ignore),
        },
        ResolverState::Sent { id } => match event {
            Event::QuerySent => (ResolverState::AwaitingResponse { id }, Action::Receive),
            _ => (ResolverState::Sent { id }, Action::Ignore),
        },
        ResolverState::AwaitingResponse { id } => match event {
            Event::Received(buf) => (classify_response(id, buf), Action::Finish),
            Event::TimeExpired => (ResolverState::TimedOut, Action::Finish),
            _ => (ResolverState::AwaitingResponse { id }, Action::Ignore),
        },
        over => (over, Action::Finish),
    }
}

/// What a lookup has for its caller: nothing while it is under way, the
/// addresses of the answers where it matched, and else the error that
/// stands for the way it ended.
pub open spec fn outcome_spec(state: StateView) -> Option<Result<Seq<Seq<u8>>, DnsError>> {
    match state {
        StateView::Idle => None,
        StateView::Sent { .. } => None,
        StateView::AwaitingResponse { .. } => None,
        StateView::Matched(message) => Some(Ok(addresses_of(message.answers))),
        StateView::Mismatched => Some(Err(DnsError::Mismatched)),
        StateView::TimedOut => Some(Err(DnsError::TimedOut)),
        StateView::ServerError(code) => Some(Err(DnsError::ServerError(code))),
        StateView::ProtocolError(e) => Some(Err(e)),
    }
}

impl ResolverState {
    /// Whether the lookup is over.
    pub fn is_over(&self) -> (over: bool)
        ensures
            over == is_terminal(self@),
    {
        match self {
            ResolverState::Idle => false,
            ResolverState::Sent { .. } => false,
            ResolverState::AwaitingResponse { .. } => false,
            _ => true,
        }
    }

    /// What the lookup has for its caller: the list of resolved addresses
    /// or a typed error once it is over, nothing before.
    pub fn outcome(&self) -> (r: Option<Result<Vec<[u8; 4]>, DnsError>>)
        ensures
            match r {
                None => outcome_spec(self@) is None,
                Some(Ok(list)) => outcome_spec(self@) == Some(
                    Ok::<Seq<Seq<u8>>, DnsError>(address_views(list@)),
                ),
                Some(Err(e)) => outcome_spec(self@) == Some(Err::<Seq<Seq<u8>>, DnsError>(e)),
            },
    {
        match self {
            ResolverState::Idle => None,
            ResolverState::Sent { .. } => None,
            ResolverState::AwaitingResponse { .. } => None,
            ResolverState::Matched(message) => Some(Ok(message.addresses())),
            ResolverState::Mismatched => Some(Err(DnsError::Mismatched)),
            ResolverState::TimedOut => Some(Err(DnsError::TimedOut)),
            ResolverState::ServerError(code) => Some(Err(DnsError::ServerError(*code))),
            ResolverState::ProtocolError(e) => Some(Err(*e)),
        }
    }
}

} // verus!
