use vstd::prelude::*;

verus! {

pub const STATUS_OK: u16 = 200;

pub const STATUS_BAD_REQUEST: u16 = 400;

pub const STATUS_PAYLOAD_TOO_LARGE: u16 = 413;

pub const STATUS_TOO_MANY_REQUESTS: u16 = 429;

pub const STATUS_BAD_GATEWAY: u16 = 502;

/// What reading one request from the client produced.
#[derive(Clone, Copy, Debug, PartialEq, Eq, Structural)]
pub enum RequestRead {
    /// A complete, valid request.
    Parsed,
    /// The stream ended after this many bytes of an unfinished request; zero is a clean
    /// end of stream.
    Incomplete(usize),
    Malformed,
    InvalidContentLength,
    ContentLengthMismatch,
    BodyTooLarge,
    /// The client socket failed.
    ConnectionError,
}

/// Stages of one client connection. `Admitting`, `Selecting` and `Closed` are the phases of
/// the same names; the five others together make up relaying.
#[derive(Clone, Copy, Debug, PartialEq, Eq, Structural)]
pub enum Phase {
    Admitting,
    Selecting,
    ReadingRequest,
    ForwardingRequest,
    ReadingResponse,
    RelayingResponse,
    /// An error response with this status is going to the client; the connection stays open.
    ReportingError(u16),
    Closed,
}

/// The outcome of the work that the previous action asked for.
#[derive(Clone, Copy, Debug, PartialEq, Eq, Structural)]
pub enum Event {
    /// The rate limiter's verdict.
    Admission(bool),
    /// Whether selection produced an upstream connection.
    UpstreamSelected(bool),
    RequestRead(RequestRead),
    /// Whether the request was written to the upstream.
    RequestForwarded(bool),
    /// Whether a response was read from the upstream.
    ResponseRead(bool),
    /// Whether the response was written to the client.
    ResponseSent(bool),
    /// An error response was sent (or its sending failed, which is not fatal).
    ErrorSent,
}

/// Work for the caller to do next.
#[derive(Clone, Copy, Debug, PartialEq, Eq, Structural)]
pub enum Action {
    CheckAdmission,
    SelectUpstream,
    ReadRequest,
    /// Add the client to `x-forwarded-for` and write the request upstream.
    ForwardRequest,
    ReadResponse,
    RelayResponse,
    /// Send an error response with this status, then read the next request.
    Respond(u16),
    /// Send an error response with this status, then release the sockets.
    RespondAndClose(u16),
    /// Release the sockets without a response.
    Close,
}

/// Status of the error response for a request that could not be read; `None` when the
/// connection ends silently instead (clean end of stream, or a client socket failure).
pub open spec fn request_error_status(e: RequestRead) -> Option<u16> {
    match e {
        RequestRead::Parsed => None,
        RequestRead::Incomplete(n) => if n == 0 {
            None
        } else {
            Some(STATUS_BAD_REQUEST)
        },
        RequestRead::Malformed => Some(STATUS_BAD_REQUEST),
        RequestRead::InvalidContentLength => Some(STATUS_BAD_REQUEST),
        RequestRead::ContentLengthMismatch => Some(STATUS_BAD_REQUEST),
        RequestRead::BodyTooLarge => Some(STATUS_PAYLOAD_TOO_LARGE),
        RequestRead::ConnectionError => None,
    }
}

/// The action that a phase waits to see done.
pub open spec fn pending(p: Phase) -> Action {
    match p {
        Phase::Admitting => Action::CheckAdmission,
        Phase::Selecting => Action::SelectUpstream,
        Phase::ReadingRequest => Action::ReadRequest,
        Phase::ForwardingRequest => Action::ForwardRequest,
        Phase::ReadingResponse => Action::ReadResponse,
        Phase::RelayingResponse => Action::RelayResponse,
        Phase::ReportingError(s) => Action::Respond(s),
        Phase::Closed => Action::Close,
    }
}

/// The connection's transition table. An event that does not answer the phase's pending
/// action leaves the phase as it is and asks for that action again.
pub open spec fn transition(p: Phase, e: Event) -> (Phase, Action) {
    match (p, e) {
        (Phase::Admitting, Event::Admission(ok)) => if ok {
            (Phase::Selecting, Action::SelectUpstream)
        } else {
            (Phase::Closed, Action::RespondAndClose(STATUS_TOO_MANY_REQUESTS))
        },
        (Phase::Selecting, Event::UpstreamSelected(ok)) => if ok {
            (Phase::ReadingRequest, Action::ReadRequest)
        } else {
            (Phase::Closed, Action::RespondAndClose(STATUS_BAD_GATEWAY))
        },
        (Phase::ReadingRequest, Event::RequestRead(r)) => if r == RequestRead::Parsed {
            (Phase::ForwardingRequest, Action::ForwardRequest)
        } else {
            match request_error_status(r) {
                Some(s) => (Phase::ReportingError(s), Action::Respond(s)),
                None => (Phase::Closed, Action::Close),
            }
        },
        (Phase::ReportingError(_), Event::ErrorSent) => (Phase::ReadingRequest, Action::ReadRequest),
        (Phase::ForwardingRequest, Event::RequestForwarded(ok)) => if ok {
            (Phase::ReadingResponse, Action::ReadResponse)
        } else {
            (Phase::Closed, Action::RespondAndClose(STATUS_BAD_GATEWAY))
        },
        (Phase::ReadingResponse, Event::ResponseRead(ok)) => if ok {
            (Phase::RelayingResponse, Action::RelayResponse)
        } else {
            (Phase::Closed, Action::RespondAndClose(STATUS_BAD_GATEWAY))
        },
        (Phase::RelayingResponse, Event::ResponseSent(ok)) => if ok {
            (Phase::ReadingRequest, Action::ReadRequest)
        } else {
            (Phase::Closed, Action::Close)
        },
        _ => (p, pending(p)),
    }
}

/// Status of the error response for a request that could not be read, or `None` where the
/// connection closes without one.
pub fn error_status(e: RequestRead) -> (r: Option<u16>)
    ensures
        r == request_error_status(e),
{
    match e {
        RequestRead::Parsed => None,
        RequestRead::Incomplete(n) => if n == 0 {
            None
        } else {
            Some(STATUS_BAD_REQUEST)
        },
        RequestRead::Malformed => Some(STATUS_BAD_REQUEST),
        RequestRead::InvalidContentLength => Some(STATUS_BAD_REQUEST),
        RequestRead::ContentLengthMismatch => Some(STATUS_BAD_REQUEST),
        RequestRead::BodyTooLarge => Some(STATUS_PAYLOAD_TOO_LARGE),
        RequestRead::ConnectionError => None,
    }
}

/// The state of one client connection.
pub struct Connection {
    phase: Phase,
}

impl Connection {
    pub closed spec fn phase_spec(&self) -> Phase {
        self.phase
    }

    /// A new connection waits for its admission check.
    pub fn new() -> (r: (Connection, Action))
        ensures
            r.0.phase_spec() == Phase::Admitting,
            r.1 == Action::CheckAdmission,
    {
        (Connection { phase: Phase::Admitting }, Action::CheckAdmission)
    }

    pub fn phase(&self) -> (r: Phase)
        ensures
            r == self.phase_spec(),
    {
        self.phase
    }

    pub fn is_closed(&self) -> (r: bool)
        ensures
            r == (self.phase_spec() == Phase::Closed),
    {
        match self.phase {
            Phase::Closed => true,
            _ => false,
        }
    }

    /// Feeds the outcome of the last action and returns the next one.
    pub fn step(&mut self, e: Event) -> (r: Action)
        ensures
            (final(self).phase_spec(), r) == transition(old(self).phase_spec(), e),
    {
        let (p, a) = match (self.phase, e) {
            (Phase::Admitting, Event::Admission(ok)) => if ok {
                (Phase::Selecting, Action::SelectUpstream)
            } else {
                (Phase::Closed, Action::RespondAndClose(STATUS_TOO_MANY_REQUESTS))
            },
            (Phase::Selecting, Event::UpstreamSelected(ok)) => if ok {
                (Phase::ReadingRequest, Action::ReadRequest)
            } else {
                (Phase::Closed, Action::RespondAndClose(STATUS_BAD_GATEWAY))
            },
            (Phase::ReadingRequest, Event::RequestRead(r)) => match r {
                RequestRead::Parsed => (Phase::ForwardingRequest, Action::ForwardRequest),
                _ => match error_status(r) {
                    Some(s) => (Phase::ReportingError(s), Action::Respond(s)),
                    None => (Phase::Closed, Action::Close),
                },
            },
            (Phase::ReportingError(_), Event::ErrorSent) => (
                Phase::ReadingRequest,
                Action::ReadRequest,
            ),
            (Phase::ForwardingRequest, Event::RequestForwarded(ok)) => if ok {
                (Phase::ReadingResponse, Action::ReadResponse)
            } else {
                (Phase::Closed, Action::RespondAndClose(STATUS_BAD_GATEWAY))
            },
            (Phase::ReadingResponse, Event::ResponseRead(ok)) => if ok {
                (Phase::RelayingResponse, Action::RelayResponse)
            } else {
                (Phase::Closed, Action::RespondAndClose(STATUS_BAD_GATEWAY))
            },
            (Phase::RelayingResponse, Event::ResponseSent(ok)) => if ok {
                (Phase::ReadingRequest, Action::ReadRequest)
            } else {
                (Phase::Closed, Action::Close)
            },
            (p, _) => (p, pending_action(p)),
        };
        self.phase = p;
        a
    }
}

fn pending_action(p: Phase) -> (r: Action)
    ensures
        r == pending(p),
{
    match p {
        Phase::Admitting => Action::CheckAdmission,
        Phase::Selecting => Action::SelectUpstream,
        Phase::ReadingRequest => Action::ReadRequest,
        Phase::ForwardingRequest => Action::ForwardRequest,
        Phase::ReadingResponse => Action::ReadResponse,
        Phase::RelayingResponse => Action::RelayResponse,
        Phase::ReportingError(s) => Action::Respond(s),
        Phase::Closed => Action::Close,
    }
}

/// Value of the `x-forwarded-for` header once `client` is added: appended after `", "`
/// (bytes 44 and 32) to an existing value, or on its own.
pub fn forwarded_for(existing: Option<&[u8]>, client: &[u8]) -> (r: Vec<u8>)
    ensures
        r@ == match existing {
            Some(v) => v@ + seq![44u8, 32u8] + client@,
            None => client@,
        },
{
    let mut out: Vec<u8> = Vec::new();
    match existing {
        Some(v) => {
            append_bytes(&mut out, v);
            out.push(44u8);
            out.push(32u8);
        },
        None => {},
    }
    append_bytes(&mut out, client);
    proof {
        match existing {
            Some(v) => {
                assert(out@ =~= v@ + seq![44u8, 32u8] + client@);
            },
            None => {
                assert(out@ =~= client@);
            },
        }
    }
    out
}

fn append_bytes(out: &mut Vec<u8>, b: &[u8])
    ensures
        final(out)@ == old(out)@ + b@,
{
    let mut i: usize = 0;
    while i < b.len()
        invariant
            i <= b@.len(),
            out@ == old(out)@ + b@.subrange(0, i as int),
        decreases b@.len() - i,
    {
        out.push(b[i]);
        i = i + 1;
        assert(out@ =~= old(out)@ + b@.subrange(0, i as int));
    }
    assert(b@.subrange(0, b@.len() as int) =~= b@);
}

/// A malformed request gets a 400-class response and the connection stays open: once the
/// response is out it reads the next request, and a valid one is forwarded as usual.
pub proof fn lemma_keep_alive_on_protocol_error(e: RequestRead)
    requires
        e != RequestRead::Parsed,
        e != RequestRead::ConnectionError,
        e != RequestRead::Incomplete(0),
    ensures
        ({
            let (p, a) = transition(Phase::ReadingRequest, Event::RequestRead(e));
            &&& a is Respond
            &&& 400 <= a->Respond_0 < 500
            &&& p == Phase::ReportingError(a->Respond_0)
            &&& transition(p, Event::ErrorSent) == (Phase::ReadingRequest, Action::ReadRequest)
        }),
        transition(Phase::ReadingRequest, Event::RequestRead(RequestRead::Parsed)) == (
            Phase::ForwardingRequest,
            Action::ForwardRequest,
        ),
{
}

/// Without an upstream the client gets a 502 and the connection closes.
pub proof fn lemma_no_upstream_is_bad_gateway()
    ensures
        transition(Phase::Selecting, Event::UpstreamSelected(false)) == (
            Phase::Closed,
            Action::RespondAndClose(STATUS_BAD_GATEWAY),
        ),
{
}

/// Once closed, a connection stays closed whatever it is told.
pub proof fn lemma_closed_is_final(e: Event)
    ensures
        transition(Phase::Closed, e) == (Phase::Closed, Action::Close),
{
}

} // verus!
