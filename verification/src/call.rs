//! One request over one connection: what to do next, given what came of what was done before.
//!
//! The sockets are the caller's. A [`Call`] says which [`Action`] to perform, is told by an
//! [`Event`] what came of it, and says the next one, until it has the outcome.

use nago_rustls::rustls_pki_types::ServerName;
use vstd::prelude::*;
use vstd::string::StringExecFns;

use crate::error::{Error, ErrorView};
use crate::request::{Request, RequestView};
use crate::response::{parse_response, response_in, Response, ResponseView, MAX_RESPONSE};
use crate::target::{Target, TargetView};
use crate::text::{join, join3, same_ignoring_case};
use crate::tls::{name_for, name_of, server_name};

verus! {

/// What a request came to.
pub type Outcome = Result<Response, Error>;

/// An [`Outcome`] with its texts as characters.
pub type OutcomeView = Result<ResponseView, ErrorView>;

/// The view of an outcome.
pub open spec fn outcome_view(outcome: Outcome) -> OutcomeView {
    match outcome {
        Ok(response) => Ok(response@),
        Err(error) => Err(error@),
    }
}

/// How far a call has come.
#[derive(Debug)]
enum Phase {
    Connecting,
    Securing,
    Handshaking,
    Writing,
    Reading(Vec<u8>),
    Closing(Outcome),
    Finished,
}

/// How far a call has come.
pub enum PhaseView {
    /// The connection is being made.
    Connecting,
    /// The TLS session is being set up.
    Securing,
    /// The TLS handshake is under way.
    Handshaking,
    /// The request is being written.
    Writing,
    /// These bytes of the response have been read, and more are needed.
    Reading(Seq<u8>),
    /// The TLS session is being closed; this is the outcome.
    Closing(OutcomeView),
    /// The outcome has been told.
    Finished,
}

/// What came of an action. An error comes with its detail.
#[derive(Debug)]
pub enum Event {
    Connected(Result<(), String>),
    Secured(Result<(), String>),
    Handshaken(Result<(), String>),
    Written(Result<(), String>),
    /// The bytes read; none where the peer has closed.
    Received(Result<Vec<u8>, String>),
    Closed,
}

/// An [`Event`] with its texts as characters.
pub enum EventView {
    Connected(Result<(), Seq<char>>),
    Secured(Result<(), Seq<char>>),
    Handshaken(Result<(), Seq<char>>),
    Written(Result<(), Seq<char>>),
    Received(Result<Seq<u8>, Seq<char>>),
    Closed,
}

/// The view of what came of an action that gives nothing back.
pub open spec fn done_view(done: Result<(), String>) -> Result<(), Seq<char>> {
    match done {
        Ok(()) => Ok(()),
        Err(detail) => Err(detail@),
    }
}

impl View for Event {
    type V = EventView;

    open spec fn view(&self) -> EventView {
        match self {
            Event::Connected(done) => EventView::Connected(done_view(*done)),
            Event::Secured(done) => EventView::Secured(done_view(*done)),
            Event::Handshaken(done) => EventView::Handshaken(done_view(*done)),
            Event::Written(done) => EventView::Written(done_view(*done)),
            Event::Received(Ok(bytes)) => EventView::Received(Ok(bytes@)),
            Event::Received(Err(detail)) => EventView::Received(Err(detail@)),
            Event::Closed => EventView::Closed,
        }
    }
}

/// What to do next.
#[derive(Debug)]
pub enum Action {
    /// Connect to one of the target's addresses.
    Connect,
    /// Set up a TLS session that verifies this name.
    Secure(ServerName<'static>),
    /// Perform the TLS handshake.
    Handshake,
    /// Write all of these bytes.
    Write(Vec<u8>),
    /// Read some bytes.
    Read,
    /// Close the TLS session.
    Close,
    /// Nothing more: this is the outcome.
    Finish(Outcome),
}

/// An [`Action`] with its texts as characters.
pub enum ActionView {
    Connect,
    Secure(ServerName<'static>),
    Handshake,
    Write(Seq<u8>),
    Read,
    Close,
    Finish(OutcomeView),
}

impl View for Action {
    type V = ActionView;

    open spec fn view(&self) -> ActionView {
        match self {
            Action::Connect => ActionView::Connect,
            Action::Secure(name) => ActionView::Secure(*name),
            Action::Handshake => ActionView::Handshake,
            Action::Write(bytes) => ActionView::Write(bytes@),
            Action::Read => ActionView::Read,
            Action::Close => ActionView::Close,
            Action::Finish(outcome) => ActionView::Finish(outcome_view(*outcome)),
        }
    }
}

/// One request over one connection.
#[derive(Debug)]
pub struct Call {
    host: String,
    tls: bool,
    head_request: bool,
    request: Vec<u8>,
    phase: Phase,
}

/// A [`Call`] with its texts as characters.
pub struct CallView {
    pub host: Seq<char>,
    pub tls: bool,
    /// The request was HEAD, whose response has no body.
    pub head_request: bool,
    /// The bytes that carry the request.
    pub request: Seq<u8>,
    pub phase: PhaseView,
}

impl View for Phase {
    type V = PhaseView;

    closed spec fn view(&self) -> PhaseView {
        match self {
            Phase::Connecting => PhaseView::Connecting,
            Phase::Securing => PhaseView::Securing,
            Phase::Handshaking => PhaseView::Handshaking,
            Phase::Writing => PhaseView::Writing,
            Phase::Reading(buffer) => PhaseView::Reading(buffer@),
            Phase::Closing(outcome) => PhaseView::Closing(outcome_view(*outcome)),
            Phase::Finished => PhaseView::Finished,
        }
    }
}

impl View for Call {
    type V = CallView;

    closed spec fn view(&self) -> CallView {
        CallView {
            host: self.host@,
            tls: self.tls,
            head_request: self.head_request,
            request: self.request@,
            phase: self.phase@,
        }
    }
}

/// The call of `request` to `target`, before anything has been done.
pub open spec fn new_call(target: TargetView, request: RequestView) -> CallView {
    CallView {
        host: target.host,
        tls: target.tls,
        head_request: same_ignoring_case(request.method, "HEAD"@),
        request: request.encoded(target.host_header()),
        phase: PhaseView::Connecting,
    }
}

impl CallView {
    /// Whether the call waits for an event of this kind.
    pub open spec fn awaits(self, event: EventView) -> bool {
        match self.phase {
            PhaseView::Connecting => event is Connected,
            PhaseView::Securing => event is Secured,
            PhaseView::Handshaking => event is Handshaken,
            PhaseView::Writing => event is Written,
            PhaseView::Reading(_) => event is Received,
            PhaseView::Closing(_) => event is Closed,
            PhaseView::Finished => false,
        }
    }

    /// The call in another phase.
    pub open spec fn at(self, phase: PhaseView) -> CallView {
        CallView { phase, ..self }
    }

    /// The call is over, with this outcome and no session to close.
    pub open spec fn finished(self, outcome: OutcomeView) -> (CallView, ActionView) {
        (self.at(PhaseView::Finished), ActionView::Finish(outcome))
    }

    /// The exchange is over, with this outcome: a TLS session is closed first.
    pub open spec fn exchanged(self, outcome: OutcomeView) -> (CallView, ActionView) {
        if self.tls {
            (self.at(PhaseView::Closing(outcome)), ActionView::Close)
        } else {
            self.finished(outcome)
        }
    }

    /// The connection is made: the session is set up over it, or the request written to it.
    pub open spec fn connected(self, name: Option<ServerName<'static>>) -> (CallView, ActionView) {
        if self.tls {
            match name_for(self.host, name) {
                Ok(name) => (self.at(PhaseView::Securing), ActionView::Secure(name)),
                Err(error) => self.finished(Err(error)),
            }
        } else {
            (self.at(PhaseView::Writing), ActionView::Write(self.request))
        }
    }

    /// These bytes were read after those in `buffer`; none where the peer has closed.
    pub open spec fn received(self, buffer: Seq<u8>, bytes: Seq<u8>) -> (CallView, ActionView) {
        if bytes.len() == 0 {
            match response_in(buffer, true, self.head_request) {
                Ok(Some(response)) => self.exchanged(Ok(response)),
                Ok(None) => self.exchanged(
                    Err(ErrorView::Protocol(self.host + " closed the connection mid-response"@)),
                ),
                Err(error) => self.exchanged(Err(error)),
            }
        } else if buffer.len() + bytes.len() > MAX_RESPONSE {
            self.exchanged(Err(ErrorView::TooLarge))
        } else {
            match response_in(buffer + bytes, false, self.head_request) {
                Ok(Some(response)) => self.exchanged(Ok(response)),
                Ok(None) => (self.at(PhaseView::Reading(buffer + bytes)), ActionView::Read),
                Err(error) => self.exchanged(Err(error)),
            }
        }
    }

    /// The state and the action after an event. One that the call does not await changes nothing.
    pub open spec fn next(self, event: EventView) -> (CallView, ActionView) {
        match (self.phase, event) {
            (PhaseView::Connecting, EventView::Connected(Ok(()))) => self.connected(
                server_name(self.host),
            ),
            (PhaseView::Connecting, EventView::Connected(Err(detail))) => self.finished(
                Err(ErrorView::Connect(self.host + ": "@ + detail)),
            ),
            (PhaseView::Securing, EventView::Secured(Ok(()))) => (
                self.at(PhaseView::Handshaking),
                ActionView::Handshake,
            ),
            (PhaseView::Securing, EventView::Secured(Err(detail))) => self.finished(
                Err(ErrorView::Tls(detail)),
            ),
            (PhaseView::Handshaking, EventView::Handshaken(Ok(()))) => (
                self.at(PhaseView::Writing),
                ActionView::Write(self.request),
            ),
            (PhaseView::Handshaking, EventView::Handshaken(Err(detail))) => self.finished(
                Err(ErrorView::Tls("handshake with "@ + self.host + ": "@ + detail)),
            ),
            (PhaseView::Writing, EventView::Written(Ok(()))) => (
                self.at(PhaseView::Reading(Seq::empty())),
                ActionView::Read,
            ),
            (PhaseView::Writing, EventView::Written(Err(detail))) => self.exchanged(
                Err(ErrorView::Io("writing to "@ + self.host + ": "@ + detail)),
            ),
            (PhaseView::Reading(buffer), EventView::Received(Ok(bytes))) => self.received(
                buffer,
                bytes,
            ),
            (PhaseView::Reading(_), EventView::Received(Err(detail))) => self.exchanged(
                Err(ErrorView::Io("reading from "@ + self.host + ": "@ + detail)),
            ),
            (PhaseView::Closing(outcome), EventView::Closed) => self.finished(outcome),
            _ => (self, ActionView::Read),
        }
    }
}

impl Call {
    /// A call of `request` to `target`, and the first thing to do.
    pub fn new(target: &Target, request: &Request<'_>) -> (start: (Self, Action))
        ensures
            start.0@ == new_call(target@, request@),
            start.1@ == ActionView::Connect,
    {
        let host_header = target.host_header();
        let call = Call {
            host: String::from_str(target.host()),
            tls: target.is_tls(),
            head_request: request.is_head(),
            request: request.encode(host_header.as_str()),
            phase: Phase::Connecting,
        };
        (call, Action::Connect)
    }

    /// Whether the call waits for an event of this kind.
    pub fn awaits(&self, event: &Event) -> (awaited: bool)
        ensures
            awaited == self@.awaits(event@),
    {
        match (&self.phase, event) {
            (Phase::Connecting, Event::Connected(_)) => true,
            (Phase::Securing, Event::Secured(_)) => true,
            (Phase::Handshaking, Event::Handshaken(_)) => true,
            (Phase::Writing, Event::Written(_)) => true,
            (Phase::Reading(_), Event::Received(_)) => true,
            (Phase::Closing(_), Event::Closed) => true,
            _ => false,
        }
    }

    /// The call in another phase.
    fn at(self, phase: Phase) -> (call: Self)
        ensures
            call@ == self@.at(phase@),
    {
        let mut call = self;
        call.phase = phase;
        call
    }

    /// The call is over, with this outcome and no session to close.
    fn finished(self, outcome: Outcome) -> (next: (Self, Action))
        ensures
            (next.0@, next.1@) == self@.finished(outcome_view(outcome)),
    {
        (self.at(Phase::Finished), Action::Finish(outcome))
    }

    /// The exchange is over, with this outcome: a TLS session is closed first.
    fn exchanged(self, outcome: Outcome) -> (next: (Self, Action))
        ensures
            (next.0@, next.1@) == self@.exchanged(outcome_view(outcome)),
    {
        if self.tls {
            (self.at(Phase::Closing(outcome)), Action::Close)
        } else {
            self.finished(outcome)
        }
    }

    /// The request is written next.
    fn write(self) -> (next: (Self, Action))
        ensures
            next.0@ == self@.at(PhaseView::Writing),
            next.1@ == ActionView::Write(self@.request),
    {
        let bytes = vstd::slice::slice_to_vec(self.request.as_slice());
        (self.at(Phase::Writing), Action::Write(bytes))
    }

    /// The connection is made: the session is set up over it, or the request written to it.
    fn connected(self) -> (next: (Self, Action))
        ensures
            (next.0@, next.1@) == self@.connected(server_name(self@.host)),
    {
        if self.tls {
            match name_of(self.host.as_str()) {
                Ok(name) => (self.at(Phase::Securing), Action::Secure(name)),
                Err(error) => self.finished(Err(error)),
            }
        } else {
            self.write()
        }
    }

    /// These bytes were read after those in `buffer`; none where the peer has closed.
    fn received(self, buffer: Vec<u8>, bytes: Vec<u8>) -> (next: (Self, Action))
        ensures
            (next.0@, next.1@) == self@.received(buffer@, bytes@),
    {
        if bytes.len() == 0 {
            match parse_response(buffer.as_slice(), true, self.head_request) {
                Ok(Some(response)) => self.exchanged(Ok(response)),
                Ok(None) => {
                    let detail = join(self.host.as_str(), " closed the connection mid-response");
                    self.exchanged(Err(Error::Protocol(detail)))
                },
                Err(error) => self.exchanged(Err(error)),
            }
        } else {
            let mut buffer = buffer;
            let mut bytes = bytes;
            buffer.append(&mut bytes);
            if buffer.len() > MAX_RESPONSE {
                return self.exchanged(Err(Error::TooLarge));
            }
            match parse_response(buffer.as_slice(), false, self.head_request) {
                Ok(Some(response)) => self.exchanged(Ok(response)),
                Ok(None) => (self.at(Phase::Reading(buffer)), Action::Read),
                Err(error) => self.exchanged(Err(error)),
            }
        }
    }

    /// What to do after an event that the call waits for.
    pub fn step(self, event: Event) -> (next: (Self, Action))
        requires
            self@.awaits(event@),
        ensures
            (next.0@, next.1@) == self@.next(event@),
    {
        match event {
            Event::Connected(Ok(())) => self.connected(),
            Event::Connected(Err(detail)) => {
                let detail = join3(self.host.as_str(), ": ", detail.as_str());
                self.finished(Err(Error::Connect(detail)))
            },
            Event::Secured(Ok(())) => (self.at(Phase::Handshaking), Action::Handshake),
            Event::Secured(Err(detail)) => self.finished(Err(Error::Tls(detail))),
            Event::Handshaken(Ok(())) => self.write(),
            Event::Handshaken(Err(detail)) => {
                let place = join3("handshake with ", self.host.as_str(), ": ");
                let detail = join(place.as_str(), detail.as_str());
                self.finished(Err(Error::Tls(detail)))
            },
            Event::Written(Ok(())) => (self.at(Phase::Reading(Vec::new())), Action::Read),
            Event::Written(Err(detail)) => {
                let place = join3("writing to ", self.host.as_str(), ": ");
                let detail = join(place.as_str(), detail.as_str());
                self.exchanged(Err(Error::Io(detail)))
            },
            Event::Received(Ok(bytes)) => {
                let mut call = self;
                let mut phase = Phase::Finished;
                std::mem::swap(&mut call.phase, &mut phase);
                match phase {
                    Phase::Reading(buffer) => call.received(buffer, bytes),
                    _ => vstd::pervasive::unreached(),
                }
            },
            Event::Received(Err(detail)) => {
                let place = join3("reading from ", self.host.as_str(), ": ");
                let detail = join(place.as_str(), detail.as_str());
                self.exchanged(Err(Error::Io(detail)))
            },
            Event::Closed => {
                let mut call = self;
                let mut phase = Phase::Finished;
                std::mem::swap(&mut call.phase, &mut phase);
                match phase {
                    Phase::Closing(outcome) => call.finished(outcome),
                    _ => vstd::pervasive::unreached(),
                }
            },
        }
    }
}

} // verus!
