//! The per-connection proxy: configuration, upstream selection, the mapping
//! from failures to minimal HTTP error responses, and the state machine that
//! sequences request read, upstream forward, response read and client
//! forward over one client connection.

use vstd::prelude::*;

use rand::Rng;
use rand::SeedableRng;

use crate::msg::{
    Header, HeaderView, Request, RequestView, Response, ResponseView, header_views, http11,
    content_length_name, x_forwarded_for_name, with_header_extended, extend_header_value,
    clone_bytes,
};
use crate::parse::{ParseError, content_length_bytes};

verus! {

// ---------------------------------------------------------------------------
// Configuration and upstream selection
// ---------------------------------------------------------------------------

#[derive(Clone, Copy, Debug, PartialEq, Eq, Structural)]
pub enum ConfigError {
    /// No upstream server was configured; the process must refuse to start.
    NoUpstreams,
}

/// What the process is started with. Immutable for its whole lifetime.
/// The health-check and rate-limit fields are accepted and carried but have
/// no behavioural effect yet; they are extension points only.
pub struct ProxyConfig {
    pub bind: String,
    pub upstreams: Vec<String>,
    pub active_health_check_interval: usize,
    pub active_health_check_path: String,
    pub max_requests_per_minute: usize,
}

impl ProxyConfig {
    /// At least one upstream address is configured.
    pub open spec fn wf(&self) -> bool {
        self.upstreams.len() > 0
    }

    /// Validate the configuration: with no upstream address the process
    /// refuses to start; otherwise every field is kept as given.
    pub fn new(
        bind: String,
        upstreams: Vec<String>,
        active_health_check_interval: usize,
        active_health_check_path: String,
        max_requests_per_minute: usize,
    ) -> (r: Result<ProxyConfig, ConfigError>)
        ensures
            (match r {
                Ok(c) => upstreams@.len() > 0 && c.wf() && c.bind@ == bind@ && c.upstreams@
                    == upstreams@ && c.active_health_check_interval
                    == active_health_check_interval && c.active_health_check_path@
                    == active_health_check_path@ && c.max_requests_per_minute
                    == max_requests_per_minute,
                Err(e) => upstreams@.len() == 0 && e == ConfigError::NoUpstreams,
            }),
    {
        if upstreams.len() == 0 {
            Err(ConfigError::NoUpstreams)
        } else {
            Ok(
                ProxyConfig {
                    bind,
                    upstreams,
                    active_health_check_interval,
                    active_health_check_path,
                    max_requests_per_minute,
                },
            )
        }
    }

    /// Choose the upstream for a new client connection: one uniform random
    /// index into the configured set, kept for the connection's lifetime.
    pub fn choose_upstream(&self) -> (i: usize)
        requires
            self.wf(),
        ensures
            i < self.upstreams.len(),
    {
        random_index_below(self.upstreams.len())
    }
}

/// Relies on `rand::rngs::StdRng::from_entropy` and `rand::Rng::gen_range`:
/// `gen_range(0..n)` panics on an empty range and otherwise returns a value
/// of the range, so the result is below `n`. Nothing is assumed about which
/// value comes back.
#[verifier::external_body]
fn random_index_below(n: usize) -> (r: usize)
    requires
        n > 0,
    ensures
        r < n,
{
    let mut rng = rand::rngs::StdRng::from_entropy();
    rng.gen_range(0..n)
}

// ---------------------------------------------------------------------------
// Error responses
// ---------------------------------------------------------------------------

/// The status a request-read failure maps to: client faults give 400,
/// an oversized body 413; the connection-failure slot maps to 503, a
/// placeholder reserved for future backpressure (no path emits it today,
/// since connection failures terminate silently).
pub open spec fn spec_status_for(e: ParseError) -> u16 {
    match e {
        ParseError::Incomplete(_) => 400,
        ParseError::Malformed(_) => 400,
        ParseError::InvalidContentLength => 400,
        ParseError::ContentLengthMismatch => 400,
        ParseError::BodyTooLarge => 413,
        ParseError::Connection => 503,
    }
}

pub fn status_for(e: &ParseError) -> (s: u16)
    ensures
        s == spec_status_for(*e),
{
    match e {
        ParseError::Incomplete(_) => 400,
        ParseError::Malformed(_) => 400,
        ParseError::InvalidContentLength => 400,
        ParseError::ContentLengthMismatch => 400,
        ParseError::BodyTooLarge => 413,
        ParseError::Connection => 503,
    }
}

/// The reason phrase sent with a synthesized status code.
pub open spec fn reason_phrase(code: u16) -> Seq<u8> {
    if code == 400 {
        seq![66u8, 97u8, 100u8, 32u8, 82u8, 101u8, 113u8, 117u8, 101u8, 115u8, 116u8]
    } else if code == 413 {
        seq![80u8, 97u8, 121u8, 108u8, 111u8, 97u8, 100u8, 32u8, 84u8, 111u8, 111u8, 32u8, 76u8, 97u8, 114u8, 103u8, 101u8]
    } else if code == 502 {
        seq![66u8, 97u8, 100u8, 32u8, 71u8, 97u8, 116u8, 101u8, 119u8, 97u8, 121u8]
    } else if code == 503 {
        seq![83u8, 101u8, 114u8, 118u8, 105u8, 99u8, 101u8, 32u8, 85u8, 110u8, 97u8, 118u8, 97u8, 105u8, 108u8, 97u8, 98u8, 108u8, 101u8]
    } else {
        Seq::<u8>::empty()
    }
}

fn reason_phrase_bytes(code: u16) -> (v: Vec<u8>)
    ensures
        v@ == reason_phrase(code),
{
    let mut v: Vec<u8> = Vec::new();
    if code == 400 {
        v.push(66);
        v.push(97);
        v.push(100);
        v.push(32);
        v.push(82);
        v.push(101);
        v.push(113);
        v.push(117);
        v.push(101);
        v.push(115);
        v.push(116);
    } else if code == 413 {
        v.push(80);
        v.push(97);
        v.push(121);
        v.push(108);
        v.push(111);
        v.push(97);
        v.push(100);
        v.push(32);
        v.push(84);
        v.push(111);
        v.push(111);
        v.push(32);
        v.push(76);
        v.push(97);
        v.push(114);
        v.push(103);
        v.push(101);
    } else if code == 502 {
        v.push(66);
        v.push(97);
        v.push(100);
        v.push(32);
        v.push(71);
        v.push(97);
        v.push(116);
        v.push(101);
        v.push(119);
        v.push(97);
        v.push(121);
    } else if code == 503 {
        v.push(83);
        v.push(101);
        v.push(114);
        v.push(118);
        v.push(105);
        v.push(99);
        v.push(101);
        v.push(32);
        v.push(85);
        v.push(110);
        v.push(97);
        v.push(118);
        v.push(97);
        v.push(105);
        v.push(108);
        v.push(97);
        v.push(98);
        v.push(108);
        v.push(101);
    }
    proof {
        assert(v@ =~= reason_phrase(code));
    }
    v
}

fn http11_bytes() -> (v: Vec<u8>)
    ensures
        v@ == http11(),
{
    let mut v: Vec<u8> = Vec::new();
    v.push(72);
    v.push(84);
    v.push(84);
    v.push(80);
    v.push(47);
    v.push(49);
    v.push(46);
    v.push(49);
    proof {
        assert(v@ =~= http11());
    }
    v
}

fn xff_bytes() -> (v: Vec<u8>)
    ensures
        v@ == x_forwarded_for_name(),
{
    let mut v: Vec<u8> = Vec::new();
    v.push(120);
    v.push(45);
    v.push(102);
    v.push(111);
    v.push(114);
    v.push(119);
    v.push(97);
    v.push(114);
    v.push(100);
    v.push(101);
    v.push(100);
    v.push(45);
    v.push(102);
    v.push(111);
    v.push(114);
    proof {
        assert(v@ =~= x_forwarded_for_name());
    }
    v
}

/// The minimal well-formed response synthesized for a failure: the given
/// status and its reason phrase on HTTP/1.1, no body, and a single
/// `content-length: 0` header.
pub open spec fn error_response_view(code: u16) -> ResponseView {
    ResponseView {
        version: http11(),
        status: code,
        reason: reason_phrase(code),
        headers: seq![HeaderView { name: content_length_name(), value: seq![48u8] }],
        body: Seq::<u8>::empty(),
    }
}

/// Synthesize the minimal error response for a status code.
pub fn make_http_error(code: u16) -> (r: Response)
    requires
        100 <= code <= 999,
    ensures
        r@ == error_response_view(code),
        100 <= r.status <= 999,
{
    let mut zero: Vec<u8> = Vec::new();
    zero.push(48);
    let mut headers: Vec<Header> = Vec::new();
    headers.push(Header { name: content_length_bytes(), value: zero });
    let r = Response {
        version: http11_bytes(),
        status: code,
        reason: reason_phrase_bytes(code),
        headers,
        body: Vec::new(),
    };
    proof {
        assert(r@.headers =~= error_response_view(code).headers);
        assert(r@ =~= error_response_view(code));
    }
    r
}

// ---------------------------------------------------------------------------
// The connection state machine
// ---------------------------------------------------------------------------

/// The bytes of `HEAD`.
pub open spec fn head_method() -> Seq<u8> {
    seq![72u8, 69u8, 65u8, 68u8]
}

/// Whether a request method forbids the response to carry a body.
pub open spec fn forbids_response_body(method: Seq<u8>) -> bool {
    method == head_method()
}

fn is_head(m: &Vec<u8>) -> (r: bool)
    ensures
        r == forbids_response_body(m@),
{
    if m.len() == 4 && m[0] == 72 && m[1] == 69 && m[2] == 65 && m[3] == 68 {
        proof {
            assert(m@ =~= head_method());
        }
        true
    } else {
        proof {
            if m@ == head_method() {
                assert(m@.len() == 4 && m@[0] == 72 && m@[1] == 69 && m@[2] == 65 && m@[3] == 68);
            }
        }
        false
    }
}

/// Where one client connection stands in its lifecycle.
#[derive(Clone, Copy, Debug, PartialEq, Eq, Structural)]
pub enum ProxyPhase {
    /// Choosing an upstream and opening the transport connection to it.
    Connecting,
    /// Waiting for the next request on the client socket.
    AwaitRequest,
    /// The forwarded request is being written to the upstream; the flag
    /// records whether the coming response's body must be suppressed.
    Forwarding(bool),
    /// Waiting for the upstream's response; the flag as in `Forwarding`.
    AwaitResponse(bool),
    /// The connection is over; both sockets are to be closed.
    Closed,
}

/// One outside occurrence handed to the state machine.
pub enum ProxyEvent {
    /// Whether the transport connection to the chosen upstream succeeded.
    Connected(bool),
    /// The outcome of reading one request from the client socket.
    RequestRead(Result<Request, ParseError>),
    /// Whether writing the forwarded request to the upstream succeeded.
    ForwardDone(bool),
    /// The outcome of reading one response from the upstream socket.
    ResponseRead(Result<Response, ParseError>),
}

/// What the caller must do next with its two sockets.
pub enum ProxyAction {
    /// Nothing to write; drive the next event.
    Continue,
    /// Write this response to the client socket.
    SendToClient(Response),
    /// Write this request to the upstream socket.
    ForwardRequest(Request),
}

#[verifier::ext_equal]
pub enum EventV {
    Connected(bool),
    RequestRead(Result<RequestView, ParseError>),
    ForwardDone(bool),
    ResponseRead(Result<ResponseView, ParseError>),
}

#[verifier::ext_equal]
pub enum ActionV {
    Continue,
    SendToClient(ResponseView),
    ForwardRequest(RequestView),
}

impl View for ProxyEvent {
    type V = EventV;

    open spec fn view(&self) -> EventV {
        match self {
            ProxyEvent::Connected(ok) => EventV::Connected(*ok),
            ProxyEvent::RequestRead(res) => EventV::RequestRead(
                match res {
                    Ok(r) => Ok(r@),
                    Err(e) => Err(*e),
                },
            ),
            ProxyEvent::ForwardDone(ok) => EventV::ForwardDone(*ok),
            ProxyEvent::ResponseRead(res) => EventV::ResponseRead(
                match res {
                    Ok(r) => Ok(r@),
                    Err(e) => Err(*e),
                },
            ),
        }
    }
}

impl View for ProxyAction {
    type V = ActionV;

    open spec fn view(&self) -> ActionV {
        match self {
            ProxyAction::Continue => ActionV::Continue,
            ProxyAction::SendToClient(r) => ActionV::SendToClient(r@),
            ProxyAction::ForwardRequest(r) => ActionV::ForwardRequest(r@),
        }
    }
}

/// Which events a phase can take.
pub open spec fn event_fits(phase: ProxyPhase, ev: EventV) -> bool {
    match phase {
        ProxyPhase::Connecting => ev is Connected,
        ProxyPhase::AwaitRequest => ev is RequestRead,
        ProxyPhase::Forwarding(_) => ev is ForwardDone,
        ProxyPhase::AwaitResponse(_) => ev is ResponseRead,
        ProxyPhase::Closed => false,
    }
}

/// The whole behaviour of one connection, as a function from phase and
/// event to the next phase and the action owed:
/// - a failed upstream connect answers 502 and closes;
/// - the graceful end of input (zero bytes read) and client-side I/O
///   failures close silently;
/// - any other request-read failure answers its status (400 or 413) and
///   keeps serving;
/// - a parsed request gains the client's address on `x-forwarded-for` and
///   is forwarded, remembering whether the response body is suppressed;
/// - a failed upstream write or response read answers 502 and closes;
/// - a parsed response is returned to the client verbatim, and the next
///   request is awaited.
pub open spec fn spec_step(phase: ProxyPhase, ip: Seq<u8>, ev: EventV) -> (ProxyPhase, ActionV) {
    match ev {
        EventV::Connected(ok) => if ok {
            (ProxyPhase::AwaitRequest, ActionV::Continue)
        } else {
            (ProxyPhase::Closed, ActionV::SendToClient(error_response_view(502)))
        },
        EventV::RequestRead(res) => match res {
            Ok(r) => (
                ProxyPhase::Forwarding(forbids_response_body(r.method)),
                ActionV::ForwardRequest(with_header_extended(r, x_forwarded_for_name(), ip)),
            ),
            Err(e) => if e == ParseError::Incomplete(0usize) || e == ParseError::Connection {
                (ProxyPhase::Closed, ActionV::Continue)
            } else {
                (
                    ProxyPhase::AwaitRequest,
                    ActionV::SendToClient(error_response_view(spec_status_for(e))),
                )
            },
        },
        EventV::ForwardDone(ok) => if ok {
            (
                match phase {
                    ProxyPhase::Forwarding(sb) => ProxyPhase::AwaitResponse(sb),
                    _ => ProxyPhase::Closed,
                },
                ActionV::Continue,
            )
        } else {
            (ProxyPhase::Closed, ActionV::SendToClient(error_response_view(502)))
        },
        EventV::ResponseRead(res) => match res {
            Ok(s) => (ProxyPhase::AwaitRequest, ActionV::SendToClient(s)),
            Err(_) => (ProxyPhase::Closed, ActionV::SendToClient(error_response_view(502))),
        },
    }
}

/// One client connection's state: its phase and the client's address in
/// textual form (what `x-forwarded-for` gains).
pub struct ProxyConn {
    pub phase: ProxyPhase,
    pub client_ip: Vec<u8>,
}

impl ProxyConn {
    pub fn new(client_ip: Vec<u8>) -> (c: ProxyConn)
        ensures
            c.phase == ProxyPhase::Connecting,
            c.client_ip@ == client_ip@,
    {
        ProxyConn { phase: ProxyPhase::Connecting, client_ip }
    }

    /// Advance the connection by one event. The next phase and the action
    /// returned are exactly what `spec_step` says.
    pub fn step(&mut self, ev: ProxyEvent) -> (act: ProxyAction)
        requires
            event_fits(old(self).phase, ev@),
        ensures
            final(self).client_ip@ == old(self).client_ip@,
            (final(self).phase, act@) == spec_step(old(self).phase, old(self).client_ip@, ev@),
    {
        match ev {
            ProxyEvent::Connected(ok) => {
                if ok {
                    self.phase = ProxyPhase::AwaitRequest;
                    ProxyAction::Continue
                } else {
                    self.phase = ProxyPhase::Closed;
                    ProxyAction::SendToClient(make_http_error(502))
                }
            },
            ProxyEvent::RequestRead(res) => match res {
                Ok(mut req) => {
                    let suppress = is_head(&req.method);
                    let name = xff_bytes();
                    let ip = clone_bytes(&self.client_ip);
                    extend_header_value(&mut req, &name, &ip);
                    self.phase = ProxyPhase::Forwarding(suppress);
                    ProxyAction::ForwardRequest(req)
                },
                Err(e) => {
                    let silent = match e {
                        ParseError::Incomplete(n) => n == 0,
                        ParseError::Connection => true,
                        _ => false,
                    };
                    if silent {
                        self.phase = ProxyPhase::Closed;
                        ProxyAction::Continue
                    } else {
                        self.phase = ProxyPhase::AwaitRequest;
                        ProxyAction::SendToClient(make_http_error(status_for(&e)))
                    }
                },
            },
            ProxyEvent::ForwardDone(ok) => {
                if ok {
                    let next = match self.phase {
                        ProxyPhase::Forwarding(sb) => ProxyPhase::AwaitResponse(sb),
                        _ => ProxyPhase::Closed,
                    };
                    self.phase = next;
                    ProxyAction::Continue
                } else {
                    self.phase = ProxyPhase::Closed;
                    ProxyAction::SendToClient(make_http_error(502))
                }
            },
            ProxyEvent::ResponseRead(res) => match res {
                Ok(resp) => {
                    self.phase = ProxyPhase::AwaitRequest;
                    ProxyAction::SendToClient(resp)
                },
                Err(_) => {
                    self.phase = ProxyPhase::Closed;
                    ProxyAction::SendToClient(make_http_error(502))
                },
            },
        }
    }
}

// ---------------------------------------------------------------------------
// Connection-level laws
// ---------------------------------------------------------------------------

/// A client that connects and closes without sending a byte: after the
/// upstream connect the read reports the graceful end of input, and the
/// connection closes with nothing sent to the client and nothing forwarded
/// upstream.
pub proof fn lemma_zero_byte_close(ip: Seq<u8>)
    ensures
        ({
            let (p1, a1) = spec_step(ProxyPhase::Connecting, ip, EventV::Connected(true));
            let (p2, a2) = spec_step(p1, ip, EventV::RequestRead(Err(ParseError::Incomplete(0usize))));
            p1 == ProxyPhase::AwaitRequest && a1 == ActionV::Continue && p2 == ProxyPhase::Closed
                && a2 == ActionV::Continue
        }),
{
}

/// A client that sends some bytes of a request but closes before the header
/// block is complete: the read reports an incomplete message with a positive
/// byte count, the client is answered 400, and the connection stays open for
/// a corrected next request.
pub proof fn lemma_partial_then_close(ip: Seq<u8>, n: usize)
    requires
        n > 0,
    ensures
        spec_step(ProxyPhase::AwaitRequest, ip, EventV::RequestRead(Err(ParseError::Incomplete(n))))
            == (ProxyPhase::AwaitRequest, ActionV::SendToClient(error_response_view(400))),
{
}

/// A request whose `content-length` declares more bytes than the client
/// sends before closing: the read reports a content-length mismatch and the
/// client is answered 400; the connection is not torn down.
pub proof fn lemma_body_length_enforced(ip: Seq<u8>)
    ensures
        spec_step(
            ProxyPhase::AwaitRequest,
            ip,
            EventV::RequestRead(Err(ParseError::ContentLengthMismatch)),
        ) == (ProxyPhase::AwaitRequest, ActionV::SendToClient(error_response_view(400))),
{
}

/// When the chosen upstream does not accept a connection, the client is
/// answered 502 and the connection is closed.
pub proof fn lemma_upstream_unreachable(ip: Seq<u8>)
    ensures
        spec_step(ProxyPhase::Connecting, ip, EventV::Connected(false)) == (
            ProxyPhase::Closed,
            ActionV::SendToClient(error_response_view(502)),
        ),
{
}

/// Three requests on one persistent client connection: each is forwarded
/// with the client's address appended, each response comes back to the
/// client in order, and the connection never leaves the serving cycle — it
/// is neither closed nor reconnected, so the same upstream connection
/// carries all three exchanges.
pub proof fn lemma_three_request_persistence(
    ip: Seq<u8>,
    r1: RequestView,
    r2: RequestView,
    r3: RequestView,
    s1: ResponseView,
    s2: ResponseView,
    s3: ResponseView,
)
    ensures
        ({
            let (p1, a1) = spec_step(ProxyPhase::AwaitRequest, ip, EventV::RequestRead(Ok(r1)));
            let (p2, a2) = spec_step(p1, ip, EventV::ForwardDone(true));
            let (p3, a3) = spec_step(p2, ip, EventV::ResponseRead(Ok(s1)));
            let (p4, a4) = spec_step(p3, ip, EventV::RequestRead(Ok(r2)));
            let (p5, a5) = spec_step(p4, ip, EventV::ForwardDone(true));
            let (p6, a6) = spec_step(p5, ip, EventV::ResponseRead(Ok(s2)));
            let (p7, a7) = spec_step(p6, ip, EventV::RequestRead(Ok(r3)));
            let (p8, a8) = spec_step(p7, ip, EventV::ForwardDone(true));
            let (p9, a9) = spec_step(p8, ip, EventV::ResponseRead(Ok(s3)));
            a1 == ActionV::ForwardRequest(with_header_extended(r1, x_forwarded_for_name(), ip))
                && a4 == ActionV::ForwardRequest(
                with_header_extended(r2, x_forwarded_for_name(), ip),
            ) && a7 == ActionV::ForwardRequest(with_header_extended(r3, x_forwarded_for_name(), ip))
                && a3 == ActionV::SendToClient(s1) && a6 == ActionV::SendToClient(s2) && a9
                == ActionV::SendToClient(s3) && a2 == ActionV::Continue && a5 == ActionV::Continue
                && a8 == ActionV::Continue && p9 == ProxyPhase::AwaitRequest && p1
                != ProxyPhase::Closed && p2 != ProxyPhase::Closed && p3 != ProxyPhase::Closed && p4
                != ProxyPhase::Closed && p5 != ProxyPhase::Closed && p6 != ProxyPhase::Closed && p7
                != ProxyPhase::Closed && p8 != ProxyPhase::Closed && p9 != ProxyPhase::Closed && p1
                != ProxyPhase::Connecting && p2 != ProxyPhase::Connecting && p3
                != ProxyPhase::Connecting && p4 != ProxyPhase::Connecting && p5
                != ProxyPhase::Connecting && p6 != ProxyPhase::Connecting && p7
                != ProxyPhase::Connecting && p8 != ProxyPhase::Connecting && p9
                != ProxyPhase::Connecting
        }),
{
}

} // verus!
