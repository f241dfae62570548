//! The relay engine: what to do next on one client connection.
//!
//! The engine never touches a socket. It is told what happened (an `Event`),
//! and answers with what to do (an `Action`) and the state to keep. Whoever
//! owns the sockets carries out the action and reports back.
//!
//! One connection goes through these steps. The client's request is read to
//! its end before anything else happens. A request without a readable request
//! line is answered with `400`, one for a blocked path with `401`, and in both
//! cases no upstream is contacted. Any other request is sent on, byte for
//! byte, over a fresh upstream connection, and the upstream's response, read
//! to its end, goes back to the client byte for byte. An upstream that cannot
//! be reached is reported to the client with `502`. Any other failure ends
//! the exchange without a response.

use crate::framing::{absorb, ends_message};
use crate::line_parser::{
    message_text, method_and_path, parse_first_line, parse_request_line, ParseError, RequestLine,
};
use crate::response::{
    bad_gateway, bad_gateway_wire, bad_request, bad_request_wire, forbidden, forbidden_wire,
};
use crate::source_loader::Blocklist;
use vstd::prelude::*;

verus! {

/// What becomes of a request once it has been read.
#[derive(Debug, Clone, Copy, PartialEq, Eq)]
pub enum Verdict {
    /// Its first line names no method and path.
    Malformed,
    /// Its path is on the blocklist.
    Blocked,
    /// It goes to the upstream.
    Forward,
}

/// The verdict on a request that reads `text`, under the blocklist `blocked`.
pub open spec fn verdict_of(text: Seq<char>, blocked: Set<Seq<char>>) -> Verdict {
    match method_and_path(text) {
        None => Verdict::Malformed,
        Some((_, path)) => if blocked.contains(path) {
            Verdict::Blocked
        } else {
            Verdict::Forward
        },
    }
}

/// Gives the verdict on a request, from what parsing its request line gave.
pub fn judge_parsed(parsed: &Result<RequestLine, ParseError>, blocklist: &Blocklist) -> (verdict:
    Verdict)
    ensures
        verdict == match *parsed {
            Err(_) => Verdict::Malformed,
            Ok(line) => if blocklist@.contains(line.path@) {
                Verdict::Blocked
            } else {
                Verdict::Forward
            },
        },
{
    match parsed {
        Err(_) => Verdict::Malformed,
        Ok(line) => if blocklist.contains(line.path.as_str()) {
            Verdict::Blocked
        } else {
            Verdict::Forward
        },
    }
}

/// Gives the verdict on a request that reads `text`.
pub fn judge_text(text: &str, blocklist: &Blocklist) -> (verdict: Verdict)
    ensures
        verdict == verdict_of(text@, blocklist@),
{
    let parsed = parse_request_line(text);
    judge_parsed(&parsed, blocklist)
}

/// Gives the verdict on a raw request.
pub fn judge(request: &[u8], blocklist: &Blocklist) -> (verdict: Verdict)
    ensures
        verdict == verdict_of(message_text(request@), blocklist@),
{
    let parsed = parse_first_line(request);
    judge_parsed(&parsed, blocklist)
}

/// What the owner of the sockets reports to the engine.
#[derive(Debug, Clone, Copy, PartialEq, Eq)]
pub enum Event<'a> {
    /// The read that was asked for brought these bytes; none at the end of
    /// the stream.
    Read(&'a [u8]),
    /// The upstream connection is open.
    Connected,
    /// The bytes handed over for the upstream are written and flushed.
    Sent,
    /// What was asked for could not be done.
    Failed,
}

/// What the engine asks the owner of the sockets to do.
#[derive(Debug, Clone, PartialEq, Eq)]
pub enum Action {
    /// Read once from the client, into a buffer of `CHUNK_CAPACITY` bytes.
    ReadClient,
    /// Open a connection to the upstream.
    Connect,
    /// Write these bytes to the upstream and flush.
    SendUpstream(Vec<u8>),
    /// Read once from the upstream, into a buffer of `CHUNK_CAPACITY` bytes.
    ReadUpstream,
    /// Write these bytes to the client, flush, and close every connection.
    /// Nothing is to be reported back.
    Reply(Vec<u8>),
    /// Close every connection without a response.
    Close,
}

/// Where one exchange stands.
#[derive(Debug, Clone, PartialEq, Eq)]
pub enum Relay {
    /// The client's request is being read; `received` holds what has come.
    AwaitingRequest { received: Vec<u8> },
    /// The upstream connection is being opened for `request`.
    Connecting { request: Vec<u8> },
    /// The request is being written to the upstream.
    Forwarding,
    /// The upstream's response is being read; `received` holds what has come.
    AwaitingResponse { received: Vec<u8> },
    /// The exchange is over.
    Closed,
}

/// An `Event` as contracts see it.
pub enum EventView {
    Read(Seq<u8>),
    Connected,
    Sent,
    Failed,
}

/// An `Action` as contracts see it.
pub enum ActionView {
    ReadClient,
    Connect,
    SendUpstream(Seq<u8>),
    ReadUpstream,
    Reply(Seq<u8>),
    Close,
}

/// A `Relay` as contracts see it.
pub enum RelayView {
    AwaitingRequest { received: Seq<u8> },
    Connecting { request: Seq<u8> },
    Forwarding,
    AwaitingResponse { received: Seq<u8> },
    Closed,
}

impl<'a> View for Event<'a> {
    type V = EventView;

    open spec fn view(&self) -> EventView {
        match *self {
            Event::Read(chunk) => EventView::Read(chunk@),
            Event::Connected => EventView::Connected,
            Event::Sent => EventView::Sent,
            Event::Failed => EventView::Failed,
        }
    }
}

impl View for Action {
    type V = ActionView;

    open spec fn view(&self) -> ActionView {
        match *self {
            Action::ReadClient => ActionView::ReadClient,
            Action::Connect => ActionView::Connect,
            Action::SendUpstream(bytes) => ActionView::SendUpstream(bytes@),
            Action::ReadUpstream => ActionView::ReadUpstream,
            Action::Reply(bytes) => ActionView::Reply(bytes@),
            Action::Close => ActionView::Close,
        }
    }
}

impl View for Relay {
    type V = RelayView;

    open spec fn view(&self) -> RelayView {
        match *self {
            Relay::AwaitingRequest { received } => RelayView::AwaitingRequest {
                received: received@,
            },
            Relay::Connecting { request } => RelayView::Connecting { request: request@ },
            Relay::Forwarding => RelayView::Forwarding,
            Relay::AwaitingResponse { received } => RelayView::AwaitingResponse {
                received: received@,
            },
            Relay::Closed => RelayView::Closed,
        }
    }
}

/// The state in which every exchange begins. The action that goes with it is
/// `ReadClient`.
pub open spec fn initial() -> RelayView {
    RelayView::AwaitingRequest { received: Seq::empty() }
}

/// What follows once the client's request is complete.
pub open spec fn on_request(request: Seq<u8>, blocked: Set<Seq<char>>) -> (RelayView, ActionView) {
    match verdict_of(message_text(request), blocked) {
        Verdict::Malformed => (RelayView::Closed, ActionView::Reply(bad_request_wire())),
        Verdict::Blocked => (RelayView::Closed, ActionView::Reply(forbidden_wire())),
        Verdict::Forward => (RelayView::Connecting { request }, ActionView::Connect),
    }
}

/// The engine's rule: the state and the action that follow when `event` is
/// reported in `state`.
///
/// An event that the state did not ask for ends the exchange without a
/// response, as a failure does.
pub open spec fn step_of(state: RelayView, event: EventView, blocked: Set<Seq<char>>) -> (
    RelayView,
    ActionView,
) {
    match (state, event) {
        (RelayView::AwaitingRequest { received }, EventView::Read(chunk)) => {
            if ends_message(chunk.len()) {
                on_request(received + chunk, blocked)
            } else {
                (RelayView::AwaitingRequest { received: received + chunk }, ActionView::ReadClient)
            }
        },
        (RelayView::Connecting { request }, EventView::Connected) => (
            RelayView::Forwarding,
            ActionView::SendUpstream(request),
        ),
        (RelayView::Connecting { .. }, EventView::Failed) => (
            RelayView::Closed,
            ActionView::Reply(bad_gateway_wire()),
        ),
        (RelayView::Forwarding, EventView::Sent) => (
            RelayView::AwaitingResponse { received: Seq::empty() },
            ActionView::ReadUpstream,
        ),
        (RelayView::AwaitingResponse { received }, EventView::Read(chunk)) => {
            if ends_message(chunk.len()) {
                (RelayView::Closed, ActionView::Reply(received + chunk))
            } else {
                (
                    RelayView::AwaitingResponse { received: received + chunk },
                    ActionView::ReadUpstream,
                )
            }
        },
        _ => (RelayView::Closed, ActionView::Close),
    }
}

impl Relay {
    /// Begins an exchange on a connection that was just accepted.
    pub fn open() -> (begin: (Relay, Action))
        ensures
            begin.0@ == initial(),
            begin.1@ == ActionView::ReadClient,
    {
        (Relay::AwaitingRequest { received: Vec::new() }, Action::ReadClient)
    }

    /// Tells whether the exchange is over.
    pub fn is_closed(&self) -> (closed: bool)
        ensures
            closed == (self@ == RelayView::Closed),
    {
        match self {
            Relay::Closed => true,
            _ => false,
        }
    }

    /// Takes the report of what happened and says what to do next.
    pub fn step(self, event: Event<'_>, blocklist: &Blocklist) -> (next: (Relay, Action))
        ensures
            (next.0@, next.1@) == step_of(self@, event@, blocklist@),
    {
        match (self, event) {
            (Relay::AwaitingRequest { received }, Event::Read(chunk)) => {
                let mut received = received;
                if absorb(&mut received, chunk) {
                    match judge(received.as_slice(), blocklist) {
                        Verdict::Malformed => (Relay::Closed, Action::Reply(bad_request())),
                        Verdict::Blocked => (Relay::Closed, Action::Reply(forbidden())),
                        Verdict::Forward => (
                            Relay::Connecting { request: received },
                            Action::Connect,
                        ),
                    }
                } else {
                    (Relay::AwaitingRequest { received }, Action::ReadClient)
                }
            },
            (Relay::Connecting { request }, Event::Connected) => (
                Relay::Forwarding,
                Action::SendUpstream(request),
            ),
            (Relay::Connecting { .. }, Event::Failed) => (
                Relay::Closed,
                Action::Reply(bad_gateway()),
            ),
            (Relay::Forwarding, Event::Sent) => (
                Relay::AwaitingResponse { received: Vec::new() },
                Action::ReadUpstream,
            ),
            (Relay::AwaitingResponse { received }, Event::Read(chunk)) => {
                let mut received = received;
                if absorb(&mut received, chunk) {
                    (Relay::Closed, Action::Reply(received))
                } else {
                    (Relay::AwaitingResponse { received }, Action::ReadUpstream)
                }
            },
            _ => (Relay::Closed, Action::Close),
        }
    }
}

} // verus!
