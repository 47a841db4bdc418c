//! A CONNECT-UDP probe (RFC 9298): it requests a tunnel to a target, sends one
//! message through it and waits for what comes back.
//!
//! The connection is driven from outside: what happens on it is one call each, and
//! the probe says what to send and when to stop. Times are nanoseconds since some
//! fixed instant.

use vstd::prelude::*;

use crate::addr::SocketAddr;
use crate::authority::host_of;
use crate::authority::lemma_bracketed_roundtrip;
use crate::authority::lemma_host_port_roundtrip;
use crate::authority::spec_host_of;
use crate::bytes::copy_of;
use crate::dgram;
use crate::quic::Verify;
use crate::random::random_bytes;
use crate::request::accept_fields;
use crate::request::connect_fields;
use crate::request::connect_headers;
use crate::request::fields;
use crate::request::lemma_request_roundtrip;
use crate::request::lemma_status_roundtrip;
use crate::request::spec_connect_request;
use crate::request::spec_status;
use crate::request::status_fields;
use crate::request::status_of;
use crate::request::Header;
use crate::request::HeaderView;
use crate::template::spec_expand;
use crate::template::Template;
use crate::text::decimal;
use crate::timer::elapsed;
use crate::timer::shorter;
use crate::timer::shorter_wait;
use crate::timer::time_since;
use crate::varint;

verus! {

/// The CONNECT request is the first stream that the client opens (id 0), so the
/// flow id of its datagrams is 0.
pub const FLOW_ID: u64 = 0;

/// Length of the connection IDs that the client issues.
pub const CONN_ID_LEN: usize = 20;

/// What to probe, and how.
#[derive(Debug)]
pub struct ClientOptions {
    pub template: Template,
    pub target_host: String,
    pub target_port: u16,
    /// Optional override for the proxy UDP address; the template host is still used
    /// for the server name and `:authority`.
    pub proxy_addr: Option<SocketAddr>,
    pub verify: Verify,
    pub ech_config_list: Option<Vec<u8>>,
    pub message: Vec<u8>,
    /// How long to wait for tunnelled responses, in nanoseconds.
    pub response_window: u128,
}

/// Where a connection to a proxy goes.
#[derive(Debug)]
pub enum Dial {
    /// To this address.
    Address(SocketAddr),
    /// To the address that this authority resolves to.
    Resolve(String),
}

/// How to connect to a proxy.
#[derive(Debug)]
pub struct DialPlan {
    pub dial: Dial,
    /// The server name to ask for.
    pub server_name: String,
}

/// Where a connection to a proxy goes: to an address, or to the authority that is to
/// be resolved.
pub enum DialView {
    Address(SocketAddr),
    Resolve(Seq<char>),
}

impl View for Dial {
    type V = DialView;

    open spec fn view(&self) -> DialView {
        match *self {
            Dial::Address(addr) => DialView::Address(addr),
            Dial::Resolve(authority) => DialView::Resolve(authority@),
        }
    }
}

/// How to connect to a proxy.
pub struct DialPlanView {
    pub dial: DialView,
    pub server_name: Seq<char>,
}

impl View for DialPlan {
    type V = DialPlanView;

    open spec fn view(&self) -> DialPlanView {
        DialPlanView { dial: self.dial@, server_name: self.server_name@ }
    }
}

/// How to connect to the proxy at an authority: an override of the address takes the
/// place of resolving the authority.
pub open spec fn spec_dial_plan(
    authority: Seq<char>,
    proxy_addr: Option<SocketAddr>,
) -> DialPlanView {
    DialPlanView {
        dial: match proxy_addr {
            Some(addr) => DialView::Address(addr),
            None => DialView::Resolve(authority),
        },
        server_name: spec_host_of(authority),
    }
}

/// How to connect to the proxy at an authority.
pub fn dial_plan(authority: &str, proxy_addr: Option<SocketAddr>) -> (r: DialPlan)
    ensures
        r@ == spec_dial_plan(authority@, proxy_addr),
{
    DialPlan {
        dial: match proxy_addr {
            Some(addr) => Dial::Address(addr),
            None => Dial::Resolve(authority.to_owned()),
        },
        server_name: host_of(authority),
    }
}

/// The request that a probe sends.
pub open spec fn probe_request(opts: ClientOptions) -> Seq<HeaderView> {
    connect_fields(
        opts.template.authority@,
        spec_expand(opts.template.literals(), opts.target_host@, opts.target_port),
    )
}

impl ClientOptions {
    /// How to connect to the proxy.
    pub fn dial(&self) -> (r: DialPlan)
        ensures
            r@ == spec_dial_plan(self.template.authority@, self.proxy_addr),
    {
        dial_plan(&self.template.authority, self.proxy_addr)
    }
}

/// A connection ID for a new connection.
pub fn fresh_conn_id() -> (r: Vec<u8>)
    ensures
        r@.len() == CONN_ID_LEN,
        r@.len() == 20,
{
    random_bytes(CONN_ID_LEN)
}

/// Why a probe failed.
#[derive(Clone, Copy, Debug, PartialEq, Eq, Structural)]
pub enum ProbeError {
    /// The request could not be sent.
    RequestFailed,
    /// The proxy answered with a status that grants no tunnel.
    Rejected { status: u16 },
    /// The answer of the proxy has no status.
    MissingStatus,
    /// The message could not be sent.
    MessageFailed,
    /// Nothing came back.
    NoResponse,
}

/// What an attempt to send gave.
#[derive(Clone, Copy, Debug, PartialEq, Eq, Structural)]
pub enum Attempt {
    Sent,
    /// There is no room now: try again later.
    Blocked,
    Failed,
}

/// How far a probe is.
#[derive(Clone, Copy, Debug, PartialEq, Eq, Structural)]
pub struct Progress {
    /// HTTP/3 is set up.
    pub http3: bool,
    pub request_sent: bool,
    /// The proxy has granted the tunnel.
    pub connected: bool,
    pub message_sent: bool,
    pub got_response: bool,
    /// When to stop waiting for a response.
    pub deadline: Option<u128>,
}

/// What happens to a probe.
pub enum ProbeEvent {
    Http3Started,
    RequestAttempt(Attempt),
    Response(Seq<HeaderView>),
    Datagram(Seq<u8>),
    MessageAttempt { attempt: Attempt, now: u128 },
}

/// Whether a status grants the tunnel.
pub open spec fn grants(status: u16) -> bool {
    200 <= status < 300
}

/// The payload that a datagram from the proxy brings back.
pub open spec fn spec_reply(datagram: Seq<u8>) -> Option<Seq<u8>> {
    match dgram::spec_decode(datagram) {
        Some((_, context, payload)) => if context == dgram::CONTEXT_ID_UDP {
            Some(payload)
        } else {
            None
        },
        None => None,
    }
}

impl Progress {
    /// The start of a probe.
    pub open spec fn start() -> Self {
        Progress {
            http3: false,
            request_sent: false,
            connected: false,
            message_sent: false,
            got_response: false,
            deadline: None,
        }
    }

    /// There is a deadline exactly when the message has been sent, which takes a
    /// tunnel.
    pub open spec fn wf(self) -> bool {
        &&& self.deadline is Some <==> self.message_sent
        &&& self.message_sent ==> self.connected
    }

    /// The probe after an event, or why it failed.
    pub open spec fn next(self, event: ProbeEvent, window: u128) -> Result<Progress, ProbeError> {
        match event {
            ProbeEvent::Http3Started => Ok(Progress { http3: true, ..self }),
            ProbeEvent::RequestAttempt(attempt) => match attempt {
                Attempt::Sent => Ok(Progress { request_sent: true, ..self }),
                Attempt::Blocked => Ok(self),
                Attempt::Failed => Err(ProbeError::RequestFailed),
            },
            ProbeEvent::Response(headers) => match spec_status(headers) {
                Some(status) => if grants(status) {
                    Ok(Progress { connected: true, ..self })
                } else {
                    Err(ProbeError::Rejected { status })
                },
                None => Err(ProbeError::MissingStatus),
            },
            ProbeEvent::Datagram(datagram) => if spec_reply(datagram) is Some {
                Ok(Progress { got_response: true, ..self })
            } else {
                Ok(self)
            },
            ProbeEvent::MessageAttempt { attempt, now } => match attempt {
                Attempt::Sent => Ok(
                    Progress {
                        message_sent: true,
                        deadline: Some((now + window) as u128),
                        ..self
                    },
                ),
                Attempt::Blocked => Ok(self),
                Attempt::Failed => Err(ProbeError::MessageFailed),
            },
        }
    }

    /// Whether the probe is over at `now`: the message is out, and a response has
    /// come or the deadline has passed.
    pub open spec fn spec_over(self, now: u128) -> bool {
        match self.deadline {
            Some(deadline) => self.got_response || now >= deadline,
            None => false,
        }
    }

    /// Whether it is time to send the request.
    pub open spec fn wants_request(self) -> bool {
        self.http3 && !self.request_sent
    }

    /// Whether it is time to send the message.
    pub open spec fn wants_message(self) -> bool {
        self.connected && !self.message_sent
    }
}

/// A running probe.
#[derive(Debug)]
pub struct Probe {
    authority: String,
    path: String,
    message: Vec<u8>,
    window: u128,
    progress: Progress,
}

impl Probe {
    /// How far the probe is.
    pub closed spec fn progress(&self) -> Progress {
        self.progress
    }

    /// The request that the probe sends.
    pub closed spec fn request_fields(&self) -> Seq<HeaderView> {
        connect_fields(self.authority@, self.path@)
    }

    /// The message that the probe sends.
    pub closed spec fn message_bytes(&self) -> Seq<u8> {
        self.message@
    }

    /// How long the probe waits for a response.
    pub closed spec fn window(&self) -> u128 {
        self.window
    }

    /// Whether two states belong to the same probe.
    pub open spec fn same_probe(&self, other: &Probe) -> bool {
        &&& self.request_fields() == other.request_fields()
        &&& self.message_bytes() == other.message_bytes()
        &&& self.window() == other.window()
    }

    /// Start a probe.
    pub fn new(opts: &ClientOptions) -> (r: Self)
        ensures
            r.progress() == Progress::start(),
            r.progress().wf(),
            r.request_fields() == probe_request(*opts),
            r.message_bytes() == opts.message@,
            r.window() == opts.response_window,
    {
        let message = copy_of(&opts.message, 0, opts.message.len());
        assert(message@ =~= opts.message@);
        Probe {
            authority: opts.template.authority.clone(),
            path: opts.template.expand(&opts.target_host, opts.target_port),
            message,
            window: opts.response_window,
            progress: Progress {
                http3: false,
                request_sent: false,
                connected: false,
                message_sent: false,
                got_response: false,
                deadline: None,
            },
        }
    }

    /// Whether to set up HTTP/3 now, given how far the handshake is.
    pub fn wants_http3(&self, established: bool, in_early_data: bool) -> (r: bool)
        ensures
            r == ((established || in_early_data) && !self.progress().http3),
    {
        (established || in_early_data) && !self.progress.http3
    }

    /// HTTP/3 is set up.
    pub fn on_http3_started(&mut self)
        requires
            old(self).progress().wf(),
        ensures
            final(self).same_probe(old(self)),
            final(self).progress().wf(),
            old(self).progress().next(ProbeEvent::Http3Started, old(self).window()) == Ok::<
                _,
                ProbeError,
            >(final(self).progress()),
    {
        self.progress.http3 = true;
    }

    /// The headers of the request, when it is time to send it.
    pub fn request(&self) -> (r: Option<Vec<Header>>)
        ensures
            match r {
                Some(headers) => self.progress().wants_request() && fields(headers@)
                    == self.request_fields(),
                None => !self.progress().wants_request(),
            },
    {
        if self.progress.http3 && !self.progress.request_sent {
            Some(connect_headers(&self.authority, &self.path))
        } else {
            None
        }
    }

    /// The request was sent, or not.
    pub fn on_request(&mut self, attempt: Attempt) -> (r: Result<(), ProbeError>)
        requires
            old(self).progress().wf(),
        ensures
            final(self).same_probe(old(self)),
            final(self).progress().wf(),
            match (
                old(self).progress().next(ProbeEvent::RequestAttempt(attempt), old(self).window()),
                r,
            ) {
                (Ok(p), Ok(_)) => final(self).progress() == p,
                (Err(e), Err(f)) => e == f && final(self).progress() == old(self).progress(),
                _ => false,
            },
    {
        match attempt {
            Attempt::Sent => {
                self.progress.request_sent = true;
                Ok(())
            },
            Attempt::Blocked => Ok(()),
            Attempt::Failed => Err(ProbeError::RequestFailed),
        }
    }

    /// The proxy has answered: any status from 200 to 299 grants the tunnel.
    pub fn on_response(&mut self, headers: &[Header]) -> (r: Result<(), ProbeError>)
        requires
            old(self).progress().wf(),
        ensures
            final(self).same_probe(old(self)),
            final(self).progress().wf(),
            match (
                old(self).progress().next(
                    ProbeEvent::Response(fields(headers@)),
                    old(self).window(),
                ),
                r,
            ) {
                (Ok(p), Ok(_)) => final(self).progress() == p,
                (Err(e), Err(f)) => e == f && final(self).progress() == old(self).progress(),
                _ => false,
            },
            r is Ok <==> (spec_status(fields(headers@)) matches Some(s) && 200 <= s <= 299),
    {
        match status_of(headers) {
            Some(status) => {
                if 200 <= status && status < 300 {
                    self.progress.connected = true;
                    Ok(())
                } else {
                    Err(ProbeError::Rejected { status })
                }
            },
            None => Err(ProbeError::MissingStatus),
        }
    }

    /// A datagram came from the proxy; the payload that it brings back, if any.
    pub fn on_datagram(&mut self, datagram: &[u8]) -> (r: Option<Vec<u8>>)
        requires
            old(self).progress().wf(),
        ensures
            final(self).same_probe(old(self)),
            final(self).progress().wf(),
            old(self).progress().next(ProbeEvent::Datagram(datagram@), old(self).window()) == Ok::<
                _,
                ProbeError,
            >(final(self).progress()),
            match r {
                Some(payload) => spec_reply(datagram@) == Some(payload@),
                None => spec_reply(datagram@) is None,
            },
    {
        match dgram::decode(datagram) {
            Some(p) => {
                if p.context_id == dgram::CONTEXT_ID_UDP {
                    self.progress.got_response = true;
                    let payload = copy_of(p.payload, 0, p.payload.len());
                    assert(payload@ =~= p.payload@);
                    Some(payload)
                } else {
                    None
                }
            },
            None => None,
        }
    }

    /// The datagram with the message, when it is time to send it.
    pub fn message(&self) -> (r: Option<Vec<u8>>)
        ensures
            match r {
                Some(d) => self.progress().wants_message() && d@ == dgram::spec_encode(
                    FLOW_ID,
                    self.message_bytes(),
                ),
                None => !self.progress().wants_message(),
            },
    {
        if self.progress.connected && !self.progress.message_sent {
            Some(dgram::encode(FLOW_ID, &self.message))
        } else {
            None
        }
    }

    /// The message was sent at `now`, or not.
    pub fn on_message(&mut self, attempt: Attempt, now: u128) -> (r: Result<(), ProbeError>)
        requires
            old(self).progress().wf(),
            old(self).progress().connected,
            now + old(self).window() <= u128::MAX,
        ensures
            final(self).same_probe(old(self)),
            final(self).progress().wf(),
            match (
                old(self).progress().next(
                    ProbeEvent::MessageAttempt { attempt, now },
                    old(self).window(),
                ),
                r,
            ) {
                (Ok(p), Ok(_)) => final(self).progress() == p,
                (Err(e), Err(f)) => e == f && final(self).progress() == old(self).progress(),
                _ => false,
            },
    {
        match attempt {
            Attempt::Sent => {
                self.progress.message_sent = true;
                self.progress.deadline = Some(now + self.window);
                Ok(())
            },
            Attempt::Blocked => Ok(()),
            Attempt::Failed => Err(ProbeError::MessageFailed),
        }
    }

    /// Whether the probe is over.
    pub fn over(&self, now: u128) -> (r: bool)
        ensures
            r == self.progress().spec_over(now),
    {
        match self.progress.deadline {
            Some(deadline) => self.progress.got_response || now >= deadline,
            None => false,
        }
    }

    /// How long to wait for the connection: until the timer fires or the deadline is
    /// reached, whichever comes first. `None` if neither is set.
    pub fn wait(&self, timer: Option<u128>, now: u128) -> (r: Option<u128>)
        ensures
            match (r, self.progress().deadline) {
                (Some(w), Some(deadline)) => w == shorter(timer, elapsed(now, deadline)),
                (_, None) => r == timer,
                _ => false,
            },
    {
        match self.progress.deadline {
            Some(deadline) => Some(shorter_wait(timer, time_since(now, deadline))),
            None => timer,
        }
    }

    /// How a probe that has ended went: it failed if the message went out and
    /// nothing came back.
    pub fn outcome(&self) -> (r: Result<(), ProbeError>)
        ensures
            r == if self.progress().message_sent && !self.progress().got_response {
                Err::<(), _>(ProbeError::NoResponse)
            } else {
                Ok::<(), ProbeError>(())
            },
    {
        if self.progress.message_sent && !self.progress.got_response {
            Err(ProbeError::NoResponse)
        } else {
            Ok(())
        }
    }
}

/// What a probe has achieved it keeps: no event takes back the tunnel, the request,
/// the message or a response, and a request or a message is not sent again.
pub proof fn lemma_progress_kept(p: Progress, event: ProbeEvent, window: u128)
    ensures
        p.next(event, window) matches Ok(q) ==> {
            &&& p.http3 ==> q.http3
            &&& p.request_sent ==> q.request_sent && !q.wants_request()
            &&& p.connected ==> q.connected
            &&& p.message_sent ==> q.message_sent && !q.wants_message()
            &&& p.got_response ==> q.got_response
        },
{
}

/// A probe whose message was answered succeeds, and is over.
pub proof fn lemma_answered_probe_succeeds(
    p: Progress,
    flow_id: u64,
    payload: Seq<u8>,
    window: u128,
    now: u128,
)
    requires
        p.wf(),
        p.message_sent,
        flow_id < crate::varint::VALUE_LIMIT,
    ensures
        p.next(ProbeEvent::Datagram(dgram::spec_encode(flow_id, payload)), window) matches Ok(q)
            && q.got_response && q.spec_over(now),
        spec_reply(dgram::spec_encode(flow_id, payload)) == Some(payload),
{
    dgram::lemma_roundtrip(flow_id, payload);
}

/// A probe is over when its wait for the deadline is, unless a timer ended the wait.
pub proof fn lemma_wait_reaches_deadline(p: Progress, timer: Option<u128>, now: u128)
    requires
        p.deadline is Some,
    ensures
        ({
            let wait = shorter(timer, elapsed(now, p.deadline->0));
            ||| p.spec_over((now + wait) as u128)
            ||| timer matches Some(t) && t == wait
        }),
{
}

/// An override of the proxy address changes where the connection goes, and nothing
/// else: with it the authority is not resolved, while the server name depends on the
/// authority alone and the request, with its `:authority` and `:path`, is the same.
pub proof fn lemma_override_changes_address_only(
    with: ClientOptions,
    without: ClientOptions,
    addr: SocketAddr,
)
    requires
        with.proxy_addr == Some(addr),
        without.proxy_addr is None,
        with.template == without.template,
        with.target_host == without.target_host,
        with.target_port == without.target_port,
    ensures
        ({
            let a = spec_dial_plan(with.template.authority@, with.proxy_addr);
            let b = spec_dial_plan(without.template.authority@, without.proxy_addr);
            &&& a.dial == DialView::Address(addr)
            &&& b.dial == DialView::Resolve(without.template.authority@)
            &&& a.server_name == b.server_name
            &&& a.server_name == spec_host_of(with.template.authority@)
        }),
        probe_request(with) == probe_request(without),
        probe_request(with) == connect_fields(
            with.template.authority@,
            spec_expand(with.template.literals(), with.target_host@, with.target_port),
        ),
{
}

/// A response with a status from 200 to 299 grants the tunnel and does nothing else; one
/// with any other status ends the probe with that status, and one without a status ends it
/// too.
pub proof fn lemma_status_decides(p: Progress, headers: Seq<HeaderView>, window: u128)
    ensures
        match spec_status(headers) {
            Some(s) => if 200 <= s <= 299 {
                p.next(ProbeEvent::Response(headers), window) matches Ok(q) && {
                    &&& q.connected
                    &&& q.http3 == p.http3
                    &&& q.request_sent == p.request_sent
                    &&& q.message_sent == p.message_sent
                    &&& q.got_response == p.got_response
                    &&& q.deadline == p.deadline
                }
            } else {
                p.next(ProbeEvent::Response(headers), window) == Err::<Progress, _>(
                    ProbeError::Rejected { status: s },
                )
            },
            None => p.next(ProbeEvent::Response(headers), window) == Err::<Progress, _>(
                ProbeError::MissingStatus,
            ),
        },
        forall|s: u16| #[trigger] grants(s) <==> 200 <= s <= 299,
{
}

/// What the proxy answers is understood by the client: every status that it refuses with
/// is a refusal, and the answer with which it opens a flow grants the tunnel.
pub proof fn lemma_answers_understood(p: Progress, status: u16, window: u128)
    ensures
        !(200 <= status <= 299) ==> p.next(
            ProbeEvent::Response(status_fields(status)),
            window,
        ) == Err::<Progress, _>(ProbeError::Rejected { status }) && !grants(status),
        p.next(ProbeEvent::Response(accept_fields()), window) matches Ok(q) && q.connected,
        grants(200),
{
    lemma_status_roundtrip(status);
    lemma_status_decides(p, status_fields(status), window);
    lemma_status_decides(p, accept_fields(), window);
}

/// What a probe does with what happens to it, field by field. The message goes out once
/// the tunnel is granted, and the deadline is the window after that; without a failure
/// nothing else changes.
pub proof fn lemma_probe_steps(p: Progress, attempt: Attempt, now: u128, window: u128)
    requires
        now + window <= u128::MAX,
    ensures
        p.next(ProbeEvent::Http3Started, window) == Ok::<_, ProbeError>(
            Progress { http3: true, ..p },
        ),
        p.next(ProbeEvent::RequestAttempt(attempt), window) == match attempt {
            Attempt::Sent => Ok::<_, ProbeError>(Progress { request_sent: true, ..p }),
            Attempt::Blocked => Ok(p),
            Attempt::Failed => Err(ProbeError::RequestFailed),
        },
        match p.next(ProbeEvent::MessageAttempt { attempt, now }, window) {
            Ok(q) => {
                &&& attempt == Attempt::Sent ==> q.message_sent && (q.deadline matches Some(t) && t
                    == now + window) && !q.wants_message() && (!q.got_response ==> forall|
                    later: u128,
                | #[trigger]
                    q.spec_over(later) <==> later >= now + window)
                &&& attempt == Attempt::Blocked ==> q == p
                &&& attempt != Attempt::Failed
                &&& q.http3 == p.http3 && q.request_sent == p.request_sent && q.connected
                    == p.connected && q.got_response == p.got_response
            },
            Err(e) => attempt == Attempt::Failed && e == ProbeError::MessageFailed,
        },
        p.wants_request() <==> p.http3 && !p.request_sent,
        p.wants_message() <==> p.connected && !p.message_sent,
        p.deadline is None ==> !p.spec_over(now),
        p.deadline is Some && p.got_response ==> p.spec_over(now),
{
}

/// A datagram counts as a response exactly if it carries a raw UDP payload, which has the
/// context 0, and then the payload comes back unchanged.
pub proof fn lemma_only_udp_replies(
    p: Progress,
    flow_id: u64,
    context: u64,
    payload: Seq<u8>,
    window: u128,
)
    requires
        flow_id < 0x4000_0000_0000_0000,
        context < 0x4000_0000_0000_0000,
    ensures
        ({
            let d = varint::spec_encode(flow_id) + varint::spec_encode(context) + payload;
            &&& spec_reply(d) == if context == 0 {
                Some(payload)
            } else {
                None
            }
            &&& p.next(ProbeEvent::Datagram(d), window) == Ok::<_, ProbeError>(
                if context == 0 {
                    Progress { got_response: true, ..p }
                } else {
                    p
                },
            )
        }),
{
    dgram::lemma_any_context(flow_id, context, payload);
}

/// The server name is the host of the authority, without the port and without brackets.
pub proof fn lemma_server_name(host: Seq<char>, port: u16, addr: Option<SocketAddr>)
    ensures
        !host.contains('[') ==> spec_dial_plan(
            host + seq![':'] + decimal(port as nat),
            addr,
        ).server_name == host,
        !host.contains(']') ==> spec_dial_plan(
            seq!['['] + host + seq![']', ':'] + decimal(port as nat),
            addr,
        ).server_name == host,
{
    if !host.contains('[') {
        if host.len() > 0 {
            assert(host.contains(host[0]));
        }
        lemma_host_port_roundtrip(host, port);
    }
    if !host.contains(']') {
        lemma_bracketed_roundtrip(host, port);
    }
}

/// The datagram with the message of a probe: it is for the first flow, and a raw UDP
/// payload.
pub proof fn lemma_message_datagram(message: Seq<u8>)
    ensures
        dgram::spec_encode(FLOW_ID, message) == seq![0u8, 0u8] + message,
{
    dgram::lemma_datagram_bytes(FLOW_ID, message);
}

/// The request of a probe goes to the authority of the template, for the path that the
/// template gives for the target.
pub proof fn lemma_probe_request(opts: ClientOptions)
    ensures
        spec_connect_request(probe_request(opts)) == Ok::<_, u16>(
            (
                opts.template.authority@,
                spec_expand(opts.template.literals(), opts.target_host@, opts.target_port),
            ),
        ),
{
    lemma_request_roundtrip(
        opts.template.authority@,
        spec_expand(opts.template.literals(), opts.target_host@, opts.target_port),
    );
}

/// A probe starts with nothing done.
pub proof fn lemma_probe_start()
    ensures
        ({
            let p = Progress::start();
            &&& !p.http3 && !p.request_sent && !p.connected && !p.message_sent && !p.got_response
            &&& p.deadline is None
        }),
{
}

/// Whatever the form of its numbers, a datagram is a response exactly if its context is 0.
pub proof fn lemma_reply_when(datagram: Seq<u8>)
    ensures
        match dgram::spec_decode(datagram) {
            Some((_, context, payload)) => spec_reply(datagram) == if context == 0 {
                Some(payload)
            } else {
                None
            },
            None => spec_reply(datagram) is None,
        },
{
}

/// A probe is over once its message is out and a response has come or the deadline is
/// reached.
pub proof fn lemma_over_when(p: Progress, now: u128)
    ensures
        match p.deadline {
            Some(t) => p.spec_over(now) <==> p.got_response || now >= t,
            None => !p.spec_over(now),
        },
{
}

} // verus!
