//! The decisions of the CONNECT-UDP proxy (RFC 9298).
//!
//! The proxy keeps, for each connection, the address of the peer and the open
//! flows, and it keeps the routes by which packets find their connection. Each
//! event of the outside world (a packet, a request, a datagram, a payload from a
//! target, the passing of time) is one call here, which updates that state and
//! says what to do. Times are nanoseconds since some fixed instant.

use vstd::prelude::*;

use crate::addr::bind_target;
use crate::addr::spec_target_plan;
use crate::addr::wildcard;
use crate::addr::SocketAddr;
use crate::addr::TargetPlan;
use crate::bytemap::ByteMap;
use crate::bytes::copy_of;
use crate::bytes::same_bytes;
use crate::dgram;
use crate::flow::addressed;
use crate::flow::is_idle_flow;
use crate::flow::lemma_payload_delivered;
use crate::flow::lemma_sweep_closes;
use crate::flow::live_flows;
use crate::flow::touch_flow;
use crate::flow::Flow;
use crate::flow::FlowTable;
use crate::random::random_bytes;
use crate::request::accept_fields;
use crate::request::accept_headers;
use crate::request::connect_fields;
use crate::request::fields;
use crate::request::lemma_request_roundtrip;
use crate::request::spec_connect_request;
use crate::request::ConnectRequest;
use crate::request::Header;
use crate::request::HeaderView;
use crate::rules::applies;
use crate::rules::lemma_first_exact_rule;
use crate::rules::lemma_first_rule_wins;
use crate::rules::lemma_match_ignores_query;
use crate::rules::spec_match_target;
use crate::rules::RuleMatch;
use crate::rules::RuleTable;
use crate::rules::RuleView;
use crate::timer::lemma_due_when;
use crate::timer::shorter;
use crate::timer::shorter_wait;
use crate::timer::time_left;
use crate::timer::time_until_due;

verus! {

/// Fixed length of the connection IDs this server issues. Short-header packets
/// do not carry the length of their connection ID, so the receiver must know it.
pub const LOCAL_CONN_ID_LEN: usize = 16;

/// How often to sweep flows for their idle timeouts, in nanoseconds.
pub const FLOW_SWEEP_INTERVAL: u128 = 1_000_000_000;

/// Error code with which the stream of an idle flow is reset.
pub const FLOW_CLOSED: u64 = 0x100;

/// What the proxy knows of one connection.
#[verifier::ext_equal]
pub struct ClientState<T> {
    pub peer: SocketAddr,
    pub flows: Map<u64, Flow<T>>,
}

/// What the proxy knows: the connections by the IDs that it issued, the connection
/// to which each original connection ID of a client leads, and when it last looked
/// for idle flows.
#[verifier::ext_equal]
pub struct ServerState<T> {
    pub clients: Map<Seq<u8>, ClientState<T>>,
    pub routes: Map<Seq<u8>, Seq<u8>>,
    /// When flows were last swept.
    pub swept_at: u128,
}

/// The flow id of a request stream.
pub open spec fn flow_of(stream_id: u64) -> u64 {
    stream_id / 4
}

/// The byte strings in a list.
pub open spec fn members(s: Seq<Vec<u8>>) -> Set<Seq<u8>> {
    Set::new(|k: Seq<u8>| exists|i: int| 0 <= i < s.len() && (#[trigger] s[i])@ == k)
}

impl<T> ServerState<T> {
    /// Every route leads to a connection, and every flow has a request stream.
    pub open spec fn wf(self) -> bool {
        &&& forall|d: Seq<u8>| #[trigger]
            self.routes.contains_key(d) ==> self.clients.contains_key(self.routes[d])
        &&& forall|c: Seq<u8>, id: u64|
            self.clients.contains_key(c) && #[trigger] self.clients[c].flows.contains_key(id) ==> id
                * 4 <= u64::MAX
    }

    /// The state before any connection, at `now`.
    pub open spec fn initial(now: u128) -> Self {
        ServerState { clients: Map::empty(), routes: Map::empty(), swept_at: now }
    }

    /// The connection that a packet with this connection ID belongs to.
    pub open spec fn destination(self, dcid: Seq<u8>) -> Option<Seq<u8>> {
        if self.clients.contains_key(dcid) {
            Some(dcid)
        } else if self.routes.contains_key(dcid) {
            Some(self.routes[dcid])
        } else {
            None
        }
    }

    /// The state with another peer address for a connection.
    pub open spec fn with_peer(self, key: Seq<u8>, peer: SocketAddr) -> Self {
        ServerState {
            clients: self.clients.insert(
                key,
                ClientState { peer, flows: self.clients[key].flows },
            ),
            routes: self.routes,
            swept_at: self.swept_at,
        }
    }

    /// The state with other flows for a connection.
    pub open spec fn with_flows(self, key: Seq<u8>, flows: Map<u64, Flow<T>>) -> Self {
        ServerState {
            clients: self.clients.insert(
                key,
                ClientState { peer: self.clients[key].peer, flows },
            ),
            routes: self.routes,
            swept_at: self.swept_at,
        }
    }

    /// The state after a connection was accepted.
    pub open spec fn accepted(self, dcid: Seq<u8>, scid: Seq<u8>, from: SocketAddr) -> Self {
        ServerState {
            clients: self.clients.insert(scid, ClientState { peer: from, flows: Map::empty() }),
            routes: self.routes.insert(dcid, scid),
            swept_at: self.swept_at,
        }
    }

    /// The state without some connections and the routes to them.
    pub open spec fn reaped(self, closed: Set<Seq<u8>>) -> Self {
        ServerState {
            clients: Map::new(
                |c: Seq<u8>| self.clients.contains_key(c) && !closed.contains(c),
                |c: Seq<u8>| self.clients[c],
            ),
            routes: Map::new(
                |d: Seq<u8>| self.routes.contains_key(d) && !closed.contains(self.routes[d]),
                |d: Seq<u8>| self.routes[d],
            ),
            swept_at: self.swept_at,
        }
    }

    /// The state after a sweep at `now`: without the flows that are idle then.
    pub open spec fn swept(self, now: u128) -> Self {
        ServerState {
            clients: self.clients.map_values(
                |c: ClientState<T>|
                    ClientState { peer: c.peer, flows: live_flows(c.flows, now) },
            ),
            routes: self.routes,
            swept_at: now,
        }
    }

    /// Whether a connection has a flow that is idle at `now`.
    pub open spec fn has_idle(self, now: u128, c: Seq<u8>, id: u64) -> bool {
        self.clients.contains_key(c) && is_idle_flow(self.clients[c].flows, now, id)
    }
}

/// One connection.
#[derive(Debug)]
struct Client<T> {
    peer: SocketAddr,
    flows: FlowTable<T>,
}

impl<T> View for Client<T> {
    type V = ClientState<T>;

    closed spec fn view(&self) -> ClientState<T> {
        ClientState { peer: self.peer, flows: self.flows@ }
    }
}

/// What to do with a packet.
#[derive(Debug)]
pub enum PacketStep {
    /// Hand it to this connection.
    Deliver(Vec<u8>),
    /// Drop it: it belongs to no connection and opens none.
    Discard,
    /// Answer with the supported versions.
    NegotiateVersion,
    /// Open a connection for it.
    Accept,
}

/// What happened on a request stream.
#[derive(Clone, Copy, Debug, PartialEq, Eq, Structural)]
pub enum StreamEvent {
    Headers,
    Data,
    Finished,
    Reset,
    Other,
}

/// What to do on a request stream.
#[derive(Clone, Copy, Debug, PartialEq, Eq, Structural)]
pub enum StreamStep {
    /// Decide on the request in the headers.
    Request,
    /// Read and ignore the body: UDP rides in datagrams.
    DrainBody,
    /// The flow of the stream is closed.
    FlowClosed,
    /// Nothing.
    Ignore,
}

/// Whether requests can be served on a connection.
#[derive(Clone, Copy, Debug, PartialEq, Eq, Structural)]
pub enum SessionStep {
    /// The handshake is not far enough.
    Wait,
    /// Set up HTTP/3 first.
    StartHttp3,
    /// Serve requests.
    Serve,
}

/// Whether requests can be served on a connection, given how far its handshake is
/// and whether HTTP/3 is set up.
pub fn session_step(established: bool, in_early_data: bool, has_http3: bool) -> (r: SessionStep)
    ensures
        r == if !established && !in_early_data {
            SessionStep::Wait
        } else if !has_http3 {
            SessionStep::StartHttp3
        } else {
            SessionStep::Serve
        },
{
    if !(established || in_early_data) {
        SessionStep::Wait
    } else if !has_http3 {
        SessionStep::StartHttp3
    } else {
        SessionStep::Serve
    }
}

/// The answer to a CONNECT-UDP request.
#[derive(Clone, Copy, Debug, PartialEq, Eq, Structural)]
pub enum ConnectDecision {
    /// Answer with this status.
    Refuse { status: u16 },
    /// Open a flow as the rule says, with a socket as planned.
    Open { rule: RuleMatch, plan: TargetPlan },
}

/// The answer to the request in a header list. An invalid request is refused as
/// [`spec_connect_request`] says, one that no rule applies to with 404, and one
/// whose target socket cannot be opened here with 502.
pub open spec fn spec_decision(
    headers: Seq<HeaderView>,
    rules: Seq<RuleView>,
    client_addr: SocketAddr,
    linux: bool,
) -> ConnectDecision {
    match spec_connect_request(headers) {
        Err(status) => ConnectDecision::Refuse { status },
        Ok((authority, path)) => match spec_match_target(rules, authority, path) {
            None => ConnectDecision::Refuse { status: 404 },
            Some(rule) => match spec_target_plan(
                rule.target,
                client_addr,
                rule.transparent,
                rule.fwmark,
                linux,
            ) {
                Err(_) => ConnectDecision::Refuse { status: 502 },
                Ok(plan) => ConnectDecision::Open { rule, plan },
            },
        },
    }
}

/// Decide on a CONNECT-UDP request. The client never selects a destination.
pub fn handle_connect_request(
    headers: &[Header],
    rules: &RuleTable,
    client_addr: SocketAddr,
    linux: bool,
) -> (r: ConnectDecision)
    ensures
        r == spec_decision(fields(headers@), rules@, client_addr, linux),
{
    let req = match ConnectRequest::parse(headers) {
        Ok(req) => req,
        Err(status) => return ConnectDecision::Refuse { status },
    };
    let rule = match rules.match_target(&req.authority, &req.path) {
        Some(rule) => rule,
        None => return ConnectDecision::Refuse { status: 404 },
    };
    match bind_target(rule.target, client_addr, rule.transparent, rule.fwmark, linux) {
        Ok(plan) => ConnectDecision::Open { rule, plan },
        Err(_) => ConnectDecision::Refuse { status: 502 },
    }
}

/// The answer to a request once the socket that it needs was opened, or not: a
/// failure to open it is answered with 502.
pub fn after_bind(decision: ConnectDecision, bound: bool) -> (r: ConnectDecision)
    ensures
        r == match decision {
            ConnectDecision::Refuse { status } => decision,
            ConnectDecision::Open { rule, plan } => if bound {
                decision
            } else {
                ConnectDecision::Refuse { status: 502 }
            },
        },
{
    match decision {
        ConnectDecision::Refuse { status: _ } => decision,
        ConnectDecision::Open { rule: _, plan: _ } => {
            if bound {
                decision
            } else {
                ConnectDecision::Refuse { status: 502 }
            }
        },
    }
}

/// The flow id of a request stream.
pub fn flow_id_of(stream_id: u64) -> (r: u64)
    ensures
        r == flow_of(stream_id),
{
    stream_id / 4
}

/// The earliest of some timers that may be unset.
pub open spec fn is_min_timeout(timeouts: Seq<Option<u128>>, r: Option<u128>) -> bool {
    match r {
        Some(m) => {
            &&& timeouts.contains(Some(m))
            &&& forall|i: int|
                0 <= i < timeouts.len() ==> (#[trigger] timeouts[i] matches Some(t) ==> m <= t)
        },
        None => forall|i: int| 0 <= i < timeouts.len() ==> #[trigger] timeouts[i] is None,
    }
}

/// The time until the first timer of any connection fires.
pub fn min_timeout(timeouts: &[Option<u128>]) -> (r: Option<u128>)
    ensures
        is_min_timeout(timeouts@, r),
{
    let mut r: Option<u128> = None;
    let mut i: usize = 0;
    assert(timeouts@.take(0) =~= Seq::empty());
    while i < timeouts.len()
        invariant
            i <= timeouts@.len(),
            is_min_timeout(timeouts@.take(i as int), r),
        decreases timeouts@.len() - i,
    {
        let ghost seen = timeouts@.take(i as int);
        let ghost more = timeouts@.take(i + 1);
        assert(more =~= seen.push(timeouts@[i as int]));
        assert(more[i as int] == timeouts@[i as int]);
        assert(forall|k: int| 0 <= k < i ==> #[trigger] more[k] == seen[k]);
        let ghost before = r;
        if let Some(t) = timeouts[i] {
            let smaller = match r {
                Some(m) => t < m,
                None => true,
            };
            if smaller {
                r = Some(t);
            }
        }
        proof {
            if r == before {
                if let Some(m) = r {
                    let k = choose|k: int| 0 <= k < seen.len() && seen[k] == Some(m);
                    assert(more[k] == Some(m));
                }
            }
        }
        i = i + 1;
    }
    assert(timeouts@.take(i as int) =~= timeouts@);
    r
}

/// A connection ID for a new connection.
pub fn fresh_conn_id() -> (r: Vec<u8>)
    ensures
        r@.len() == LOCAL_CONN_ID_LEN,
        r@.len() == 16,
{
    random_bytes(LOCAL_CONN_ID_LEN)
}

/// A flow that was closed because it was idle.
#[derive(Debug)]
pub struct ClosedFlow {
    /// The connection of the flow.
    pub conn_id: Vec<u8>,
    /// The request stream of the flow.
    pub stream_id: u64,
}

/// The state of the proxy. `T` is the handle by which a payload is handed to the
/// target socket of a flow.
#[derive(Debug)]
pub struct Server<T> {
    /// Active connections by the IDs that the server chose.
    clients: ByteMap<Client<T>>,
    /// From a client's original connection ID to ours, so that early
    /// retransmissions find the connection before the client adopts our ID.
    routes: ByteMap<Vec<u8>>,
    /// When flows were last swept.
    swept_at: u128,
}

impl<T> View for Server<T> {
    type V = ServerState<T>;

    closed spec fn view(&self) -> ServerState<T> {
        ServerState {
            clients: self.clients@.map_values(|c: Client<T>| c@),
            routes: self.routes@.map_values(|k: Vec<u8>| k@),
            swept_at: self.swept_at,
        }
    }
}

impl<T> Server<T> {
    /// The maps hold no key twice, and the state is well formed.
    pub closed spec fn wf(&self) -> bool {
        &&& self.clients.wf()
        &&& self.routes.wf()
        &&& self@.wf()
    }

    /// What callers may rely on in a well-formed server.
    pub proof fn lemma_wf(&self)
        requires
            self.wf(),
        ensures
            self@.wf(),
    {
    }

    /// A proxy without connections, started at `now`.
    pub fn new(now: u128) -> (r: Self)
        ensures
            r.wf(),
            r@ == ServerState::<T>::initial(now),
    {
        let r = Server { clients: ByteMap::new(), routes: ByteMap::new(), swept_at: now };
        assert(r@ =~= ServerState::<T>::initial(now));
        r
    }

    /// Replace what is known of a connection.
    fn put(&mut self, key: &[u8], client: Client<T>)
        requires
            old(self).clients.wf(),
            old(self).routes.wf(),
        ensures
            final(self).clients.wf(),
            final(self).routes.wf(),
            final(self)@ == (ServerState {
                clients: old(self)@.clients.insert(key@, client@),
                routes: old(self)@.routes,
                swept_at: old(self)@.swept_at,
            }),
    {
        self.clients.insert(key, client);
        assert(self@.clients =~= old(self)@.clients.insert(key@, client@));
    }

    /// Take a connection out.
    fn pull(&mut self, key: &[u8]) -> (r: Option<Client<T>>)
        requires
            old(self).clients.wf(),
            old(self).routes.wf(),
        ensures
            final(self).clients.wf(),
            final(self).routes.wf(),
            final(self)@ == (ServerState {
                clients: old(self)@.clients.remove(key@),
                routes: old(self)@.routes,
                swept_at: old(self)@.swept_at,
            }),
            match r {
                Some(c) => old(self)@.clients.contains_key(key@) && c@
                    == old(self)@.clients[key@],
                None => !old(self)@.clients.contains_key(key@),
            },
    {
        let r = self.clients.remove(key);
        assert(self@.clients =~= old(self)@.clients.remove(key@));
        r
    }

    /// Take in the header of a packet from `from`. A packet belongs to the
    /// connection with its connection ID, or else to the one that the ID leads to;
    /// that connection now has `from` as its peer. Any other packet can open a
    /// connection if it is an Initial of a supported version.
    pub fn on_packet(
        &mut self,
        dcid: &[u8],
        is_initial: bool,
        version_supported: bool,
        from: SocketAddr,
    ) -> (r: PacketStep)
        requires
            old(self).wf(),
        ensures
            final(self).wf(),
            final(self)@ == old(self)@.next(ServerEvent::Packet { dcid: dcid@, from }),
            match old(self)@.destination(dcid@) {
                Some(key) => {
                    &&& r matches PacketStep::Deliver(k) && k@ == key
                    &&& old(self)@.clients.contains_key(key)
                    &&& final(self)@ == old(self)@.with_peer(key, from)
                },
                None => {
                    &&& final(self)@ == old(self)@
                    &&& r == if !is_initial {
                        PacketStep::Discard
                    } else if !version_supported {
                        PacketStep::NegotiateVersion
                    } else {
                        PacketStep::Accept
                    }
                },
            },
    {
        let key = if self.clients.contains_key(dcid) {
            let k = copy_of(dcid, 0, dcid.len());
            assert(k@ =~= dcid@);
            k
        } else {
            match self.routes.get(dcid) {
                Some(scid) => {
                    let k = copy_of(scid, 0, scid.len());
                    assert(k@ =~= scid@);
                    assert(self@.routes.contains_key(dcid@));
                    k
                },
                None => {
                    assert(!self@.routes.contains_key(dcid@));
                    return if !is_initial {
                        PacketStep::Discard
                    } else if !version_supported {
                        PacketStep::NegotiateVersion
                    } else {
                        PacketStep::Accept
                    };
                },
            }
        };
        assert(self@.destination(dcid@) == Some(key@));
        assert(self@.clients.contains_key(key@));
        match self.pull(&key) {
            Some(c) => {
                self.put(&key, Client { peer: from, flows: c.flows });
                assert(self@ =~= old(self)@.with_peer(key@, from));
            },
            None => {},
        }
        PacketStep::Deliver(key)
    }

    /// Register a connection that was accepted under the connection ID `scid`, for
    /// a packet from `from` with the connection ID `original_dcid`.
    pub fn accept(&mut self, original_dcid: &[u8], scid: &[u8], from: SocketAddr)
        requires
            old(self).wf(),
        ensures
            final(self).wf(),
            final(self)@ == old(self)@.next(
                ServerEvent::Accepted { dcid: original_dcid@, scid: scid@, from },
            ),
            final(self)@ == old(self)@.accepted(original_dcid@, scid@, from),
    {
        self.put(scid, Client { peer: from, flows: FlowTable::new() });
        let ghost mid = self@;
        let key = copy_of(scid, 0, scid.len());
        assert(key@ =~= scid@);
        self.routes.insert(original_dcid, key);
        proof {
            assert(self@.routes =~= mid.routes.insert(original_dcid@, scid@));
            assert(self@ =~= old(self)@.accepted(original_dcid@, scid@, from));
            lemma_accepted_wf(old(self)@, original_dcid@, scid@, from);
        }
    }

    /// The address of the peer of a connection.
    pub fn peer_of(&self, conn_id: &[u8]) -> (r: Option<SocketAddr>)
        requires
            self.wf(),
        ensures
            r == if self@.clients.contains_key(conn_id@) {
                Some(self@.clients[conn_id@].peer)
            } else {
                None
            },
    {
        match self.clients.get(conn_id) {
            Some(c) => Some(c.peer),
            None => None,
        }
    }

    /// Open the flow of a request stream, in place of any that the stream had. The
    /// headers of the answer come back; `None` if there is no such connection.
    pub fn open_flow(
        &mut self,
        conn_id: &[u8],
        stream_id: u64,
        to_target: T,
        idle_timeout: Option<u128>,
        now: u128,
    ) -> (r: Option<Vec<Header>>)
        requires
            old(self).wf(),
        ensures
            final(self).wf(),
            final(self)@ == old(self)@.next(
                ServerEvent::Opened { conn_id: conn_id@, stream_id, to_target, idle_timeout, now },
            ),
            if old(self)@.clients.contains_key(conn_id@) {
                &&& r matches Some(headers) && fields(headers@) == accept_fields()
                &&& final(self)@ == old(self)@.with_flows(
                    conn_id@,
                    old(self)@.clients[conn_id@].flows.insert(
                        flow_of(stream_id),
                        Flow { to_target, last_activity: now, idle_timeout },
                    ),
                )
            } else {
                r is None && final(self)@ == old(self)@
            },
    {
        match self.pull(conn_id) {
            None => {
                assert(self@ =~= old(self)@);
                None
            },
            Some(c) => {
                let mut flows = c.flows;
                let flow = Flow { to_target, last_activity: now, idle_timeout };
                flows.insert(flow_id_of(stream_id), flow);
                self.put(conn_id, Client { peer: c.peer, flows });
                proof {
                    assert(self@ =~= old(self)@.with_flows(conn_id@, flows@));
                    let had = old(self)@.clients[conn_id@].flows;
                    assert forall|id: u64| #[trigger] flows@.contains_key(id) implies id * 4
                        <= u64::MAX by {
                        assert(id == flow_of(stream_id) || had.contains_key(id));
                    }
                    lemma_with_flows_wf(old(self)@, conn_id@, flows@);
                }
                Some(accept_headers())
            },
        }
    }

    /// Close the flow of a request stream.
    pub fn close_flow(&mut self, conn_id: &[u8], stream_id: u64)
        requires
            old(self).wf(),
        ensures
            final(self).wf(),
            final(self)@ == old(self)@.next(
                ServerEvent::Closed { conn_id: conn_id@, stream_id },
            ),
            final(self)@ == if old(self)@.clients.contains_key(conn_id@) {
                old(self)@.with_flows(
                    conn_id@,
                    old(self)@.clients[conn_id@].flows.remove(flow_of(stream_id)),
                )
            } else {
                old(self)@
            },
    {
        match self.pull(conn_id) {
            None => {
                assert(self@ =~= old(self)@);
            },
            Some(c) => {
                let mut flows = c.flows;
                let _ = flows.remove(flow_id_of(stream_id));
                self.put(conn_id, Client { peer: c.peer, flows });
                proof {
                    assert(self@ =~= old(self)@.with_flows(conn_id@, flows@));
                    lemma_fewer_flows_wf(old(self)@, conn_id@, flows@);
                }
            },
        }
    }

    /// Take in an event on a request stream. The end of the stream, by either
    /// side's will, ends its flow.
    pub fn on_stream_event(&mut self, conn_id: &[u8], stream_id: u64, event: StreamEvent) -> (r:
        StreamStep)
        requires
            old(self).wf(),
        ensures
            final(self).wf(),
            r == match event {
                StreamEvent::Headers => StreamStep::Request,
                StreamEvent::Data => StreamStep::DrainBody,
                StreamEvent::Finished | StreamEvent::Reset => StreamStep::FlowClosed,
                StreamEvent::Other => StreamStep::Ignore,
            },
            final(self)@ == if r == StreamStep::FlowClosed {
                old(self)@.next(ServerEvent::Closed { conn_id: conn_id@, stream_id })
            } else {
                old(self)@
            },
    {
        match event {
            StreamEvent::Headers => StreamStep::Request,
            StreamEvent::Data => StreamStep::DrainBody,
            StreamEvent::Finished | StreamEvent::Reset => {
                self.close_flow(conn_id, stream_id);
                StreamStep::FlowClosed
            },
            StreamEvent::Other => StreamStep::Ignore,
        }
    }

    /// Take in a payload that a target sent back on a flow. The datagram for the
    /// client comes back, and the flow, where it is still open, has had traffic.
    /// `None` if the connection is gone.
    pub fn on_target_payload(
        &mut self,
        conn_id: &[u8],
        flow_id: u64,
        payload: &[u8],
        now: u128,
    ) -> (r: Option<Vec<u8>>)
        requires
            old(self).wf(),
        ensures
            final(self).wf(),
            final(self)@ == old(self)@.next(
                ServerEvent::FromTarget { conn_id: conn_id@, flow_id, now },
            ),
            if old(self)@.clients.contains_key(conn_id@) {
                &&& r matches Some(d) && d@ == dgram::spec_encode(flow_id, payload@)
                &&& final(self)@ == old(self)@.with_flows(
                    conn_id@,
                    touch_flow(old(self)@.clients[conn_id@].flows, flow_id, now),
                )
            } else {
                r is None && final(self)@ == old(self)@
            },
    {
        match self.pull(conn_id) {
            None => {
                assert(self@ =~= old(self)@);
                None
            },
            Some(c) => {
                let mut flows = c.flows;
                flows.touch(flow_id, now);
                self.put(conn_id, Client { peer: c.peer, flows });
                proof {
                    assert(self@ =~= old(self)@.with_flows(conn_id@, flows@));
                    lemma_fewer_flows_wf(old(self)@, conn_id@, flows@);
                }
                Some(dgram::encode(flow_id, payload))
            },
        }
    }

    /// Forget one connection and the routes to it.
    fn reap_one(&mut self, key: &[u8])
        requires
            old(self).wf(),
        ensures
            final(self).wf(),
            final(self)@ == old(self)@.reaped(set![key@]),
    {
        let _ = self.pull(key);
        let ghost mid = self@;
        let ghost closed = set![key@];
        let dcids = self.routes.keys();
        let mut i: usize = 0;
        proof {
            assert forall|d: Seq<u8>| #[trigger] mid.routes.contains_key(d) implies exists|j: int|
                0 <= j < dcids@.len() && (#[trigger] dcids@[j])@ == d by {
                assert(self.routes@.contains_key(d));
            }
        }
        while i < dcids.len()
            invariant
                i <= dcids@.len(),
                closed == set![key@],
                self.clients.wf(),
                self.routes.wf(),
                self@.clients == mid.clients,
                self@.swept_at == mid.swept_at,
                forall|d: Seq<u8>| #[trigger] self@.routes.contains_key(d) ==> mid
                    .routes.contains_key(d) && self@.routes[d] == mid.routes[d],
                forall|d: Seq<u8>| #[trigger] mid.routes.contains_key(d) && mid.routes[d] != key@
                    ==> self@.routes.contains_key(d),
                forall|j: int|
                    0 <= j < i ==> (self@.routes.contains_key((#[trigger] dcids@[j])@)
                        ==> self@.routes[dcids@[j]@] != key@),
            decreases dcids@.len() - i,
        {
            let ghost before = self@.routes;
            let leads_here = match self.routes.get(&dcids[i]) {
                Some(scid) => same_bytes(scid, key),
                None => false,
            };
            if leads_here {
                let _ = self.routes.remove(&dcids[i]);
                assert(self@.routes =~= before.remove(dcids@[i as int]@));
            }
            i = i + 1;
        }
        proof {
            let want = old(self)@.reaped(closed);
            assert(self@.clients =~= want.clients);
            assert forall|d: Seq<u8>| #[trigger] self@.routes.contains_key(d)
                == want.routes.contains_key(d) by {
                if mid.routes.contains_key(d) {
                    let j = choose|j: int| 0 <= j < dcids@.len() && (#[trigger] dcids@[j])@ == d;
                    assert(self@.routes.contains_key(dcids@[j]@) ==> self@.routes[d] != key@);
                }
            }
            assert(self@.routes =~= want.routes);
            assert(self@ =~= want);
            lemma_reaped_wf(old(self)@, closed);
        }
    }

    /// Forget closed connections and the routes that lead to them.
    pub fn reap_closed(&mut self, closed: &[Vec<u8>])
        requires
            old(self).wf(),
        ensures
            final(self).wf(),
            final(self)@ == old(self)@.next(ServerEvent::Reaped { closed: members(closed@) }),
            final(self)@ == old(self)@.reaped(members(closed@)),
    {
        let mut i: usize = 0;
        assert(self@ =~= old(self)@.reaped(members(closed@.take(0))));
        while i < closed.len()
            invariant
                i <= closed@.len(),
                self.wf(),
                self@ == old(self)@.reaped(members(closed@.take(i as int))),
            decreases closed@.len() - i,
        {
            self.reap_one(&closed[i]);
            proof {
                let key = closed@[i as int]@;
                let a = members(closed@.take(i as int));
                let b = members(closed@.take(i + 1));
                assert forall|k: Seq<u8>| #[trigger] b.contains(k) <==> a.contains(k) || k
                    == key by {
                    if a.contains(k) {
                        let j = choose|j: int|
                            0 <= j < closed@.take(i as int).len() && (#[trigger] closed@.take(
                                i as int,
                            )[j])@ == k;
                        assert(closed@.take(i + 1)[j]@ == k);
                    }
                    if b.contains(k) && k != key {
                        let j = choose|j: int|
                            0 <= j < closed@.take(i + 1).len() && (#[trigger] closed@.take(i + 1)[
                            j])@ == k;
                        assert(closed@.take(i as int)[j]@ == k);
                    }
                    assert(closed@.take(i + 1)[i as int]@ == key);
                }
                assert(old(self)@.reaped(a).reaped(set![key]) =~= old(self)@.reaped(b));
            }
            i = i + 1;
        }
        assert(closed@.take(i as int) =~= closed@);
    }

    /// Close flows idle past their timeout. The closed flows come back, each once
    /// and in no particular order: resetting their request streams tells the client
    /// that the flow is gone, so that it frees the stream and opens a new flow with
    /// the next datagram.
    pub fn sweep_idle_flows(&mut self, now: u128) -> (r: Vec<ClosedFlow>)
        requires
            old(self).wf(),
        ensures
            final(self).wf(),
            final(self)@ == old(self)@.swept(now),
            lists_idle(old(self)@, now, r@),
    {
        let keys = self.clients.keys();
        let ghost start = self@;
        let mut closed: Vec<ClosedFlow> = Vec::new();
        let mut i: usize = 0;
        proof {
            assert forall|c: Seq<u8>| #[trigger] start.clients.contains_key(c) implies exists|
                j: int,
            |
                0 <= j < keys@.len() && (#[trigger] keys@[j])@ == c by {
                assert(self.clients@.contains_key(c));
            }
            assert forall|j: int| 0 <= j < keys@.len() implies start.clients.contains_key(
                (#[trigger] keys@[j])@,
            ) by {
                assert(self.clients@.contains_key(keys@[j]@));
            }
            assert(part_swept(start, now, keys@, 0) =~= start);
        }
        while i < keys.len()
            invariant
                i <= keys@.len(),
                start.wf(),
                self.clients.wf(),
                self.routes.wf(),
                self@ == part_swept(start, now, keys@, i as int),
                forall|j: int|
                    0 <= j < keys@.len() ==> start.clients.contains_key((#[trigger] keys@[j])@),
                forall|j: int, k: int|
                    0 <= j < k < keys@.len() ==> (#[trigger] keys@[j])@ != (#[trigger] keys@[k])@,
                closed_all(start, now, keys@, i as int, closed@),
            decreases keys@.len() - i,
        {
            let key = &keys[i];
            proof {
                assert(!is_earlier(keys@, i as int, key@));
            }
            match self.pull(key) {
                Some(c) => {
                    let mut flows = c.flows;
                    let ids = flows.sweep(now);
                    self.put(key, Client { peer: c.peer, flows });
                    proof {
                        lemma_part_swept(start, now, keys@, i as int);
                        assert(self@ =~= part_swept(start, now, keys@, i + 1));
                    }
                    let ghost before = closed@;
                    assert forall|k: int| 0 <= k < ids@.len() implies #[trigger] ids@[k] * 4
                        <= u64::MAX by {
                        assert(ids@.contains(ids@[k]));
                        assert(start.clients[key@].flows.contains_key(ids@[k]));
                    }
                    push_closed(&mut closed, key, &ids);
                    proof {
                        lemma_closed_all(start, now, keys@, i as int, before, ids@, closed@);
                    }
                },
                None => {},
            }
            i = i + 1;
        }
        self.swept_at = now;
        proof {
            assert forall|c: Seq<u8>| start.clients.contains_key(c) implies (
            #[trigger] is_earlier(keys@, i as int, c)) by {
                let j = choose|j: int| 0 <= j < keys@.len() && (#[trigger] keys@[j])@ == c;
                assert(keys@[j]@ == c);
            }
            assert(self@.clients =~= start.swept(now).clients);
            assert(self@ =~= start.swept(now));
            lemma_swept_wf(start, now);
            assert forall|c: Seq<u8>, id: u64| #[trigger] start.has_idle(now, c, id) implies exists|
                k: int,
            |
                0 <= k < closed@.len() && (#[trigger] closed@[k]).conn_id@ == c
                    && closed@[k].stream_id == id * 4 by {
                assert(is_earlier(keys@, i as int, c));
                assert(listed(closed@, c, id));
            }
        }
        closed
    }

    /// Sweep flows if that is due. To be called on every pass of the event loop,
    /// whatever woke it.
    pub fn sweep_if_due(&mut self, now: u128) -> (r: Vec<ClosedFlow>)
        requires
            old(self).wf(),
        ensures
            final(self).wf(),
            final(self)@ == old(self)@.next(ServerEvent::Pass { now }),
            if sweep_left(old(self)@.swept_at, now) == 0 {
                lists_idle(old(self)@, now, r@)
            } else {
                r@.len() == 0
            },
    {
        if sweep_due(self.swept_at, now) {
            self.sweep_idle_flows(now)
        } else {
            Vec::new()
        }
    }

    /// How long the event loop may wait: until the first timer fires or a sweep is
    /// due, whichever comes first.
    pub fn next_wait(&self, timer: Option<u128>, now: u128) -> (r: u128)
        ensures
            r == shorter(timer, sweep_left(self@.swept_at, now)),
    {
        shorter_wait(timer, time_until_due(self.swept_at, FLOW_SWEEP_INTERVAL, now))
    }
}

/// How long until a sweep is due, if the last one was at `swept_at`.
pub open spec fn sweep_left(swept_at: u128, now: u128) -> int {
    time_left(swept_at, FLOW_SWEEP_INTERVAL, now)
}

/// Whether a sweep is due.
pub fn sweep_due(swept_at: u128, now: u128) -> (r: bool)
    ensures
        r == (sweep_left(swept_at, now) == 0),
{
    time_until_due(swept_at, FLOW_SWEEP_INTERVAL, now) == 0
}

/// Whether a list holds the flows that are idle at `now`, each once.
pub open spec fn lists_idle<T>(s: ServerState<T>, now: u128, r: Seq<ClosedFlow>) -> bool {
    &&& forall|i: int|
        0 <= i < r.len() ==> (#[trigger] r[i]).stream_id % 4 == 0 && s.has_idle(
            now,
            r[i].conn_id@,
            flow_of(r[i].stream_id),
        )
    &&& forall|c: Seq<u8>, id: u64| #[trigger]
        s.has_idle(now, c, id) ==> exists|i: int|
            0 <= i < r.len() && (#[trigger] r[i]).conn_id@ == c && r[i].stream_id == id * 4
    &&& forall|i: int, j: int|
        0 <= i < j < r.len() ==> (#[trigger] r[i]).conn_id@ != (#[trigger] r[j]).conn_id@
            || r[i].stream_id != r[j].stream_id
}

/// What happens to the proxy.
pub enum ServerEvent<T> {
    /// A packet came.
    Packet { dcid: Seq<u8>, from: SocketAddr },
    /// A connection was accepted.
    Accepted { dcid: Seq<u8>, scid: Seq<u8>, from: SocketAddr },
    /// A flow was opened.
    Opened {
        conn_id: Seq<u8>,
        stream_id: u64,
        to_target: T,
        idle_timeout: Option<u128>,
        now: u128,
    },
    /// A flow was closed.
    Closed { conn_id: Seq<u8>, stream_id: u64 },
    /// A target sent a payload.
    FromTarget { conn_id: Seq<u8>, flow_id: u64, now: u128 },
    /// A client sent a datagram.
    FromClient { conn_id: Seq<u8>, datagram: Seq<u8>, now: u128 },
    /// Connections were closed.
    Reaped { closed: Set<Seq<u8>> },
    /// The event loop went round.
    Pass { now: u128 },
}

impl<T> ServerState<T> {
    /// The state after an event.
    pub open spec fn next(self, event: ServerEvent<T>) -> Self {
        match event {
            ServerEvent::Packet { dcid, from } => match self.destination(dcid) {
                Some(key) => self.with_peer(key, from),
                None => self,
            },
            ServerEvent::Accepted { dcid, scid, from } => self.accepted(dcid, scid, from),
            ServerEvent::Opened { conn_id, stream_id, to_target, idle_timeout, now } => {
                if self.clients.contains_key(conn_id) {
                    self.with_flows(
                        conn_id,
                        self.clients[conn_id].flows.insert(
                            flow_of(stream_id),
                            Flow { to_target, last_activity: now, idle_timeout },
                        ),
                    )
                } else {
                    self
                }
            },
            ServerEvent::Closed { conn_id, stream_id } => if self.clients.contains_key(conn_id) {
                self.with_flows(conn_id, self.clients[conn_id].flows.remove(flow_of(stream_id)))
            } else {
                self
            },
            ServerEvent::FromTarget { conn_id, flow_id, now } => if self.clients.contains_key(
                conn_id,
            ) {
                self.with_flows(conn_id, touch_flow(self.clients[conn_id].flows, flow_id, now))
            } else {
                self
            },
            ServerEvent::FromClient { conn_id, datagram, now } => if self.clients.contains_key(
                conn_id,
            ) {
                match addressed(self.clients[conn_id].flows, datagram) {
                    Some((id, _)) => self.with_flows(
                        conn_id,
                        touch_flow(self.clients[conn_id].flows, id, now),
                    ),
                    None => self,
                }
            } else {
                self
            },
            ServerEvent::Reaped { closed } => self.reaped(closed),
            ServerEvent::Pass { now } => if sweep_left(self.swept_at, now) == 0 {
                self.swept(now)
            } else {
                self
            },
        }
    }

    /// The state after some events.
    pub open spec fn after(self, events: Seq<ServerEvent<T>>) -> Self
        decreases events.len(),
    {
        if events.len() == 0 {
            self
        } else {
            self.after(events.drop_last()).next(events.last())
        }
    }

    /// Whether a connection has this flow.
    pub open spec fn has_flow(self, c: Seq<u8>, id: u64) -> bool {
        self.clients.contains_key(c) && self.clients[c].flows.contains_key(id)
    }
}

impl<T> ServerEvent<T> {
    /// Whether the event is traffic on a flow, or opens it.
    pub open spec fn concerns(self, c: Seq<u8>, id: u64) -> bool {
        match self {
            ServerEvent::Opened { conn_id, stream_id, .. } => conn_id == c && flow_of(stream_id)
                == id,
            ServerEvent::FromTarget { conn_id, flow_id, .. } => conn_id == c && flow_id == id,
            ServerEvent::FromClient { conn_id, datagram, .. } => conn_id == c && (
            dgram::spec_decode(datagram) matches Some((i, _, _)) && i == id),
            _ => false,
        }
    }
}

/// Whether `c` is one of the first `n` keys.
spec fn is_earlier(keys: Seq<Vec<u8>>, n: int, c: Seq<u8>) -> bool {
    exists|j: int| 0 <= j < n && (#[trigger] keys[j])@ == c
}

/// The state in which the first `n` connections have been swept.
spec fn part_swept<T>(s: ServerState<T>, now: u128, keys: Seq<Vec<u8>>, n: int) -> ServerState<T> {
    ServerState {
        clients: Map::new(
            |c: Seq<u8>| s.clients.contains_key(c),
            |c: Seq<u8>|
                if is_earlier(keys, n, c) {
                    ClientState {
                        peer: s.clients[c].peer,
                        flows: live_flows(s.clients[c].flows, now),
                    }
                } else {
                    s.clients[c]
                },
        ),
        routes: s.routes,
        swept_at: s.swept_at,
    }
}

proof fn lemma_part_swept<T>(s: ServerState<T>, now: u128, keys: Seq<Vec<u8>>, n: int)
    requires
        0 <= n < keys.len(),
        s.clients.contains_key(keys[n]@),
    ensures
        part_swept(s, now, keys, n + 1).clients == part_swept(s, now, keys, n).clients.insert(
            keys[n]@,
            ClientState {
                peer: s.clients[keys[n]@].peer,
                flows: live_flows(s.clients[keys[n]@].flows, now),
            },
        ),
{
    let a = part_swept(s, now, keys, n + 1).clients;
    let one = ClientState {
        peer: s.clients[keys[n]@].peer,
        flows: live_flows(s.clients[keys[n]@].flows, now),
    };
    let b = part_swept(s, now, keys, n).clients.insert(keys[n]@, one);
    assert forall|c: Seq<u8>| #[trigger] is_earlier(keys, n + 1, c) == (is_earlier(keys, n, c) || c
        == keys[n]@) by {
        if is_earlier(keys, n, c) {
            let j = choose|j: int| 0 <= j < n && (#[trigger] keys[j])@ == c;
            assert(keys[j]@ == c);
        }
        if is_earlier(keys, n + 1, c) && c != keys[n]@ {
            let j = choose|j: int| 0 <= j < n + 1 && (#[trigger] keys[j])@ == c;
            assert(keys[j]@ == c);
        }
    }
    assert forall|c: Seq<u8>| #[trigger] a.contains_key(c) implies a[c] == b[c] by {
        assert(is_earlier(keys, n + 1, c) == (is_earlier(keys, n, c) || c == keys[n]@));
    }
    assert(a =~= b);
}

/// Whether a closed flow is listed.
spec fn listed(closed: Seq<ClosedFlow>, c: Seq<u8>, id: u64) -> bool {
    exists|i: int|
        0 <= i < closed.len() && (#[trigger] closed[i]).conn_id@ == c && closed[i].stream_id == id
            * 4
}

/// Whether a list holds the idle flows of the first `n` connections, each once.
spec fn closed_all<T>(
    s: ServerState<T>,
    now: u128,
    keys: Seq<Vec<u8>>,
    n: int,
    closed: Seq<ClosedFlow>,
) -> bool {
    &&& forall|i: int|
        0 <= i < closed.len() ==> {
            &&& (#[trigger] closed[i]).stream_id % 4 == 0
            &&& s.has_idle(now, closed[i].conn_id@, flow_of(closed[i].stream_id))
            &&& is_earlier(keys, n, closed[i].conn_id@)
        }
    &&& forall|c: Seq<u8>, id: u64| #[trigger]
        s.has_idle(now, c, id) && is_earlier(keys, n, c) ==> listed(closed, c, id)
    &&& forall|i: int, j: int|
        0 <= i < j < closed.len() ==> (#[trigger] closed[i]).conn_id@ != (
        #[trigger] closed[j]).conn_id@ || closed[i].stream_id != closed[j].stream_id
}

proof fn lemma_closed_all<T>(
    s: ServerState<T>,
    now: u128,
    keys: Seq<Vec<u8>>,
    n: int,
    before: Seq<ClosedFlow>,
    ids: Seq<u64>,
    after: Seq<ClosedFlow>,
)
    requires
        0 <= n < keys.len(),
        s.wf(),
        s.clients.contains_key(keys[n]@),
        !is_earlier(keys, n, keys[n]@),
        closed_all(s, now, keys, n, before),
        ids.no_duplicates(),
        forall|id: u64| #[trigger]
            ids.contains(id) <==> is_idle_flow(s.clients[keys[n]@].flows, now, id),
        after.len() == before.len() + ids.len(),
        forall|i: int| 0 <= i < before.len() ==> #[trigger] after[i] == before[i],
        forall|k: int|
            before.len() <= k < after.len() ==> is_entry(
                #[trigger] after[k],
                keys[n]@,
                ids[k - before.len()],
            ),
    ensures
        closed_all(s, now, keys, n + 1, after),
{
    let key = keys[n]@;
    let m = before.len() as int;
    assert forall|c: Seq<u8>| #[trigger] is_earlier(keys, n + 1, c) == (is_earlier(keys, n, c) || c
        == key) by {
        if is_earlier(keys, n, c) {
            let j = choose|j: int| 0 <= j < n && (#[trigger] keys[j])@ == c;
            assert(keys[j]@ == c);
        }
        if is_earlier(keys, n + 1, c) && c != key {
            let j = choose|j: int| 0 <= j < n + 1 && (#[trigger] keys[j])@ == c;
            assert(keys[j]@ == c);
        }
    }
    assert forall|i: int| 0 <= i < after.len() implies {
        &&& (#[trigger] after[i]).stream_id % 4 == 0
        &&& s.has_idle(now, after[i].conn_id@, flow_of(after[i].stream_id))
        &&& is_earlier(keys, n + 1, after[i].conn_id@)
    } by {
        if i < m {
            assert(after[i] == before[i]);
        } else {
            let id = ids[i - m];
            assert(is_entry(after[i], key, id));
            assert(ids.contains(id));
            assert(flow_of(after[i].stream_id) == id);
        }
    }
    assert forall|c: Seq<u8>, id: u64| #[trigger] s.has_idle(now, c, id) && is_earlier(
        keys,
        n + 1,
        c,
    ) implies listed(after, c, id) by {
        if c == key {
            assert(ids.contains(id));
            let k = choose|k: int| 0 <= k < ids.len() && ids[k] == id;
            assert(is_entry(after[m + k], key, ids[k]));
        } else {
            assert(listed(before, c, id));
            let i = choose|i: int|
                0 <= i < before.len() && (#[trigger] before[i]).conn_id@ == c
                    && before[i].stream_id == id * 4;
            assert(after[i] == before[i]);
        }
    }
    assert forall|i: int, j: int| 0 <= i < j < after.len() implies (
    #[trigger] after[i]).conn_id@ != (#[trigger] after[j]).conn_id@ || after[i].stream_id
        != after[j].stream_id by {
        if j < m {
            assert(after[i] == before[i] && after[j] == before[j]);
        } else {
            assert(is_entry(after[j], key, ids[j - m]));
            if i < m {
                assert(after[i] == before[i]);
                assert(is_earlier(keys, n, before[i].conn_id@));
            } else {
                assert(is_entry(after[i], key, ids[i - m]));
            }
        }
    }
}

/// Whether `f` stands for the flow `id` of a connection.
spec fn is_entry(f: ClosedFlow, key: Seq<u8>, id: u64) -> bool {
    f.conn_id@ == key && f.stream_id == id * 4
}

/// Append the flows of one connection to a list.
fn push_closed(closed: &mut Vec<ClosedFlow>, key: &[u8], ids: &[u64])
    requires
        forall|k: int| 0 <= k < ids@.len() ==> #[trigger] ids@[k] * 4 <= u64::MAX,
    ensures
        final(closed)@.len() == old(closed)@.len() + ids@.len(),
        forall|i: int|
            0 <= i < old(closed)@.len() ==> #[trigger] final(closed)@[i] == old(closed)@[i],
        forall|k: int|
            old(closed)@.len() <= k < final(closed)@.len() ==> is_entry(
                #[trigger] final(closed)@[k],
                key@,
                ids@[k - old(closed)@.len()],
            ),
{
    let ghost n = closed@.len() as int;
    let mut i: usize = 0;
    while i < ids.len()
        invariant
            i <= ids@.len(),
            n == old(closed)@.len(),
            forall|k: int| 0 <= k < ids@.len() ==> #[trigger] ids@[k] * 4 <= u64::MAX,
            closed@.len() == n + i,
            forall|k: int| 0 <= k < n ==> #[trigger] closed@[k] == old(closed)@[k],
            forall|k: int|
                n <= k < closed@.len() ==> is_entry(#[trigger] closed@[k], key@, ids@[k - n]),
        decreases ids@.len() - i,
    {
        let conn_id = copy_of(key, 0, key.len());
        assert(conn_id@ =~= key@);
        closed.push(ClosedFlow { conn_id, stream_id: ids[i] * 4 });
        i = i + 1;
    }
}

proof fn lemma_with_flows_wf<T>(s: ServerState<T>, key: Seq<u8>, flows: Map<u64, Flow<T>>)
    requires
        s.wf(),
        s.clients.contains_key(key),
        forall|id: u64| #[trigger] flows.contains_key(id) ==> id * 4 <= u64::MAX,
    ensures
        s.with_flows(key, flows).wf(),
{
    let t = s.with_flows(key, flows);
    assert forall|c: Seq<u8>, id: u64| t.clients.contains_key(c)
        && #[trigger] t.clients[c].flows.contains_key(id) implies id * 4 <= u64::MAX by {
        if c != key {
            assert(s.clients[c].flows.contains_key(id));
        }
    }
}

proof fn lemma_fewer_flows_wf<T>(s: ServerState<T>, key: Seq<u8>, flows: Map<u64, Flow<T>>)
    requires
        s.wf(),
        s.clients.contains_key(key),
        forall|id: u64| #[trigger]
            flows.contains_key(id) ==> s.clients[key].flows.contains_key(id),
    ensures
        s.with_flows(key, flows).wf(),
{
    lemma_with_flows_wf(s, key, flows);
}

proof fn lemma_accepted_wf<T>(s: ServerState<T>, dcid: Seq<u8>, scid: Seq<u8>, from: SocketAddr)
    requires
        s.wf(),
    ensures
        s.accepted(dcid, scid, from).wf(),
{
    let t = s.accepted(dcid, scid, from);
    assert forall|c: Seq<u8>, id: u64| t.clients.contains_key(c)
        && #[trigger] t.clients[c].flows.contains_key(id) implies id * 4 <= u64::MAX by {
        if c != scid {
            assert(s.clients[c].flows.contains_key(id));
        }
    }
}

proof fn lemma_reaped_wf<T>(s: ServerState<T>, closed: Set<Seq<u8>>)
    requires
        s.wf(),
    ensures
        s.reaped(closed).wf(),
{
    let t = s.reaped(closed);
    assert forall|d: Seq<u8>| #[trigger] t.routes.contains_key(d) implies t.clients.contains_key(
        t.routes[d],
    ) by {
        assert(s.routes.contains_key(d));
    }
    assert forall|c: Seq<u8>, id: u64| t.clients.contains_key(c)
        && #[trigger] t.clients[c].flows.contains_key(id) implies id * 4 <= u64::MAX by {
        assert(s.clients[c].flows.contains_key(id));
    }
}

proof fn lemma_swept_wf<T>(s: ServerState<T>, now: u128)
    requires
        s.wf(),
    ensures
        s.swept(now).wf(),
{
    let t = s.swept(now);
    assert forall|c: Seq<u8>, id: u64| t.clients.contains_key(c)
        && #[trigger] t.clients[c].flows.contains_key(id) implies id * 4 <= u64::MAX by {
        assert(s.clients[c].flows.contains_key(id));
    }
    assert forall|d: Seq<u8>| #[trigger] t.routes.contains_key(d) implies t.clients.contains_key(
        t.routes[d],
    ) by {
        assert(s.routes.contains_key(d));
    }
}

impl<T: Clone> Server<T> {
    /// Take in a datagram from the client of a connection. A raw UDP payload on an
    /// open flow comes back with the handle of the flow, and the flow has had
    /// traffic; anything else is dropped.
    pub fn on_client_datagram(&mut self, conn_id: &[u8], datagram: &[u8], now: u128) -> (r: Option<
        (T, Vec<u8>),
    >)
        requires
            old(self).wf(),
        ensures
            final(self).wf(),
            final(self)@ == old(self)@.next(
                ServerEvent::FromClient { conn_id: conn_id@, datagram: datagram@, now },
            ),
            match r {
                Some((to_target, payload)) => {
                    let flows = old(self)@.clients[conn_id@].flows;
                    &&& old(self)@.clients.contains_key(conn_id@)
                    &&& addressed(flows, datagram@) matches Some((id, sent)) && {
                        &&& payload@ == sent
                        &&& cloned(flows[id].to_target, to_target)
                        &&& final(self)@ == old(self)@.with_flows(
                            conn_id@,
                            touch_flow(flows, id, now),
                        )
                    }
                },
                None => {
                    &&& final(self)@ == old(self)@
                    &&& old(self)@.clients.contains_key(conn_id@) ==> addressed(
                        old(self)@.clients[conn_id@].flows,
                        datagram@,
                    ) is None
                },
            },
    {
        match self.pull(conn_id) {
            None => {
                assert(self@ =~= old(self)@);
                None
            },
            Some(c) => {
                let mut flows = c.flows;
                let r = flows.deliver(datagram, now);
                self.put(conn_id, Client { peer: c.peer, flows });
                proof {
                    assert(self@ =~= old(self)@.with_flows(conn_id@, flows@));
                    lemma_fewer_flows_wf(old(self)@, conn_id@, flows@);
                    if r is None {
                        assert(self@ =~= old(self)@);
                    }
                }
                r
            },
        }
    }
}

/// Packets with the original connection ID of an accepted connection and packets
/// with the issued one belong to it. If the issued ID was not in use, no other
/// packet changes its destination.
pub proof fn lemma_accepted_found<T>(
    s: ServerState<T>,
    dcid: Seq<u8>,
    scid: Seq<u8>,
    from: SocketAddr,
    other: Seq<u8>,
)
    requires
        s.destination(dcid) is None,
    ensures
        s.accepted(dcid, scid, from).destination(dcid) == Some(scid),
        s.accepted(dcid, scid, from).destination(scid) == Some(scid),
        s.destination(scid) is None && other != dcid && other != scid ==> s.accepted(
            dcid,
            scid,
            from,
        ).destination(other) == s.destination(other),
{
}

/// No packet belongs to a connection that was reaped, and packets of the other
/// connections still belong to them.
pub proof fn lemma_reaped_unreachable<T>(s: ServerState<T>, closed: Set<Seq<u8>>, dcid: Seq<u8>)
    requires
        s.wf(),
    ensures
        s.reaped(closed).destination(dcid) matches Some(key) ==> !closed.contains(key),
        s.destination(dcid) matches Some(key) ==> (!closed.contains(key) ==> s.reaped(
            closed,
        ).destination(dcid) == Some(key)),
{
}

/// A packet only ever belongs to a connection that exists.
pub proof fn lemma_destination_exists<T>(s: ServerState<T>, dcid: Seq<u8>)
    requires
        s.wf(),
    ensures
        s.destination(dcid) matches Some(key) ==> s.clients.contains_key(key),
{
}

/// After a sweep no flow is idle, and every flow that was not idle is untouched.
pub proof fn lemma_swept_flows<T>(s: ServerState<T>, now: u128, c: Seq<u8>, id: u64)
    ensures
        !s.swept(now).has_idle(now, c, id),
        s.swept(now).clients.dom() == s.clients.dom(),
        s.clients.contains_key(c) ==> s.swept(now).clients[c].peer == s.clients[c].peer,
        s.clients.contains_key(c) && s.clients[c].flows.contains_key(id) && !s.has_idle(now, c, id)
            ==> s.swept(now).clients[c].flows.contains_key(id) && s.swept(
            now,
        ).clients[c].flows[id] == s.clients[c].flows[id],
{
    assert(s.swept(now).clients.dom() =~= s.clients.dom());
}

/// Every event keeps the state well formed.
pub proof fn lemma_next_wf<T>(s: ServerState<T>, event: ServerEvent<T>)
    requires
        s.wf(),
    ensures
        s.next(event).wf(),
{
    match event {
        ServerEvent::Packet { dcid, from } => {
            if let Some(key) = s.destination(dcid) {
                let t = s.with_peer(key, from);
                assert forall|c: Seq<u8>, id: u64| t.clients.contains_key(c)
                    && #[trigger] t.clients[c].flows.contains_key(id) implies id * 4
                    <= u64::MAX by {
                    assert(s.clients[c].flows.contains_key(id));
                }
            }
        },
        ServerEvent::Accepted { dcid, scid, from } => {
            lemma_accepted_wf(s, dcid, scid, from);
        },
        ServerEvent::Opened { conn_id, stream_id, to_target, idle_timeout, now } => {
            if s.clients.contains_key(conn_id) {
                let had = s.clients[conn_id].flows;
                let flow = Flow { to_target, last_activity: now, idle_timeout };
                let flows = had.insert(flow_of(stream_id), flow);
                assert forall|id: u64| #[trigger] flows.contains_key(id) implies id * 4
                    <= u64::MAX by {
                    assert(id == flow_of(stream_id) || had.contains_key(id));
                }
                lemma_with_flows_wf(s, conn_id, flows);
            }
        },
        ServerEvent::Closed { conn_id, stream_id } => {
            if s.clients.contains_key(conn_id) {
                let had = s.clients[conn_id].flows;
                lemma_fewer_flows_wf(s, conn_id, had.remove(flow_of(stream_id)));
            }
        },
        ServerEvent::FromTarget { conn_id, flow_id, now } => {
            if s.clients.contains_key(conn_id) {
                let had = s.clients[conn_id].flows;
                lemma_fewer_flows_wf(s, conn_id, touch_flow(had, flow_id, now));
            }
        },
        ServerEvent::FromClient { conn_id, datagram, now } => {
            if s.clients.contains_key(conn_id) {
                let had = s.clients[conn_id].flows;
                if let Some((id, _)) = addressed(had, datagram) {
                    lemma_fewer_flows_wf(s, conn_id, touch_flow(had, id, now));
                }
            }
        },
        ServerEvent::Reaped { closed } => {
            lemma_reaped_wf(s, closed);
        },
        ServerEvent::Pass { now } => {
            lemma_swept_wf(s, now);
        },
    }
}

proof fn lemma_flow_kept<T>(
    s: ServerState<T>,
    events: Seq<ServerEvent<T>>,
    c: Seq<u8>,
    id: u64,
    deadline: int,
)
    requires
        s.wf(),
        s.has_flow(c, id),
        s.clients[c].flows[id].idle_timeout matches Some(d)
            && s.clients[c].flows[id].last_activity + d == deadline,
        forall|i: int| 0 <= i < events.len() ==> !(#[trigger] events[i]).concerns(c, id),
    ensures
        s.after(events).wf(),
        s.after(events).has_flow(c, id) ==> {
            &&& s.after(events).clients[c].flows[id] == s.clients[c].flows[id]
            &&& s.swept_at <= deadline ==> s.after(events).swept_at <= deadline
        },
    decreases events.len(),
{
    if events.len() > 0 {
        let before = events.drop_last();
        assert forall|i: int| 0 <= i < before.len() implies !(#[trigger] before[i]).concerns(
            c,
            id,
        ) by {
            assert(before[i] == events[i]);
        }
        lemma_flow_kept(s, before, c, id, deadline);
        let t = s.after(before);
        let e = events.last();
        assert(!events[events.len() - 1].concerns(c, id));
        assert(s.after(events) == t.next(e));
        lemma_next_wf(t, e);
        match e {
            ServerEvent::Packet { dcid, from } => {
                lemma_destination_exists(t, dcid);
            },
            _ => {},
        }
    }
}

/// Idle flows are closed in time, whatever events came between: a flow without
/// traffic since `last_activity` is gone after every pass that comes both its idle
/// timeout after that and the sweep interval after the last sweep. If the flows had
/// not been swept after its timeout before, it is gone at the latest after the first
/// pass that comes its timeout and the sweep interval after its last traffic.
pub proof fn lemma_idle_flow_closed_in_time<T>(
    s: ServerState<T>,
    events: Seq<ServerEvent<T>>,
    c: Seq<u8>,
    id: u64,
    now: u128,
)
    requires
        s.wf(),
        s.has_flow(c, id),
        forall|i: int| 0 <= i < events.len() ==> !(#[trigger] events[i]).concerns(c, id),
    ensures
        s.clients[c].flows[id].idle_timeout matches Some(d) ==> {
            let deadline = s.clients[c].flows[id].last_activity + d;
            &&& now >= deadline && now >= s.after(events).swept_at + FLOW_SWEEP_INTERVAL
                ==> !s.after(events.push(ServerEvent::Pass { now })).has_flow(c, id)
            &&& now >= deadline + FLOW_SWEEP_INTERVAL && s.swept_at <= deadline ==> !s.after(
                events.push(ServerEvent::Pass { now }),
            ).has_flow(c, id)
        },
{
    if let Some(d) = s.clients[c].flows[id].idle_timeout {
        lemma_flow_kept(s, events, c, id, s.clients[c].flows[id].last_activity + d);
        let all = events.push(ServerEvent::Pass { now });
        assert(all.drop_last() =~= events);
        assert(s.after(all) == s.after(events).next(ServerEvent::Pass { now }));
    }
}

/// A valid request is refused with 404 exactly where no rule applies to it.
pub proof fn lemma_refused_without_rule(
    headers: Seq<HeaderView>,
    rules: Seq<RuleView>,
    client_addr: SocketAddr,
    linux: bool,
)
    ensures
        spec_connect_request(headers) matches Ok((authority, path)) ==> (spec_decision(
            headers,
            rules,
            client_addr,
            linux,
        ) == (ConnectDecision::Refuse { status: 404 }) <==> forall|i: int|
            0 <= i < rules.len() ==> !#[trigger] applies(rules[i], authority, path)),
{
    if let Ok((authority, path)) = spec_connect_request(headers) {
        lemma_first_rule_wins(rules, authority, path);
    }
}

/// A flow is only ever opened towards the target of a rule that applies to the
/// request.
pub proof fn lemma_opened_by_rule(
    headers: Seq<HeaderView>,
    rules: Seq<RuleView>,
    client_addr: SocketAddr,
    linux: bool,
)
    ensures
        spec_decision(headers, rules, client_addr, linux) matches ConnectDecision::Open {
            rule,
            plan,
        } ==> {
            &&& spec_connect_request(headers) matches Ok((authority, path)) && exists|i: int|
                0 <= i < rules.len() && #[trigger] applies(rules[i], authority, path)
                    && rules[i].decision == rule
            &&& spec_target_plan(
                rule.target,
                client_addr,
                rule.transparent,
                rule.fwmark,
                linux,
            ) == Ok::<_, crate::addr::TargetError>(plan)
        },
{
    if let Ok((authority, path)) = spec_connect_request(headers) {
        lemma_first_rule_wins(rules, authority, path);
    }
}

/// The request that the client sends for an authority and a path is decided by the
/// first rule that applies to them, and a query in the path changes nothing.
pub proof fn lemma_client_request_decided(
    authority: Seq<char>,
    path: Seq<char>,
    query: Seq<char>,
    rules: Seq<RuleView>,
    client_addr: SocketAddr,
    linux: bool,
)
    ensures
        spec_match_target(rules, authority, path) matches Some(rule) ==> (!rule.transparent
            && rule.fwmark is None ==> spec_decision(
            connect_fields(authority, path),
            rules,
            client_addr,
            linux,
        ) == (ConnectDecision::Open {
            rule,
            plan: TargetPlan::Ordinary { bind: wildcard(rule.target), fwmark: None },
        })),
        spec_match_target(rules, authority, path) is None ==> spec_decision(
            connect_fields(authority, path),
            rules,
            client_addr,
            linux,
        ) == (ConnectDecision::Refuse { status: 404 }),
        spec_decision(
            connect_fields(authority, path + seq!['?'] + query),
            rules,
            client_addr,
            linux,
        ) == spec_decision(connect_fields(authority, path), rules, client_addr, linux),
{
    lemma_request_roundtrip(authority, path);
    lemma_request_roundtrip(authority, path + seq!['?'] + query);
    lemma_match_ignores_query(rules, authority, path, query);
}

/// A packet belongs to the connection with its connection ID, or else to the one that
/// the ID leads to. It changes the address of that connection's peer and nothing else:
/// every flow of every connection stays as it was.
pub proof fn lemma_packet_moves_peer_only<T>(
    s: ServerState<T>,
    dcid: Seq<u8>,
    from: SocketAddr,
    c: Seq<u8>,
)
    requires
        s.wf(),
    ensures
        ({
            let t = s.next(ServerEvent::Packet { dcid, from });
            let hit = if s.clients.contains_key(dcid) {
                c == dcid
            } else {
                s.routes.contains_key(dcid) && s.routes[dcid] == c
            };
            &&& s.destination(dcid) == Some(c) <==> hit
            &&& t.routes == s.routes
            &&& t.swept_at == s.swept_at
            &&& t.clients.contains_key(c) <==> s.clients.contains_key(c)
            &&& s.clients.contains_key(c) ==> {
                &&& t.clients[c].flows == s.clients[c].flows
                &&& t.clients[c].peer == if hit {
                    from
                } else {
                    s.clients[c].peer
                }
            }
        }),
{
}

/// Connections come with their acceptance and go when they are reaped, and by no other
/// event. An accepted connection starts without flows, with the sender as its peer, and
/// the peer changes with packets only.
pub proof fn lemma_connections_come_and_go<T>(
    s: ServerState<T>,
    event: ServerEvent<T>,
    c: Seq<u8>,
)
    requires
        s.wf(),
    ensures
        s.next(event).clients.contains_key(c) <==> match event {
            ServerEvent::Accepted { dcid, scid, from } => c == scid || s.clients.contains_key(c),
            ServerEvent::Reaped { closed } => s.clients.contains_key(c) && !closed.contains(c),
            _ => s.clients.contains_key(c),
        },
        s.next(event).clients.contains_key(c) ==> match event {
            ServerEvent::Accepted { dcid, scid, from } => if c == scid {
                &&& s.next(event).clients[c].peer == from
                &&& forall|id: u64| !#[trigger] s.next(event).clients[c].flows.contains_key(id)
            } else {
                s.next(event).clients[c] == s.clients[c]
            },
            ServerEvent::Packet { .. } => true,
            _ => s.next(event).clients[c].peer == s.clients[c].peer,
        },
{
}

/// Routes come with acceptance, from the original connection ID to the issued one, and
/// go when the connection that they lead to is reaped. The time of the last sweep changes
/// with a pass that comes a second or more after it, and then is the time of that pass.
pub proof fn lemma_routes_come_and_go<T>(s: ServerState<T>, event: ServerEvent<T>, d: Seq<u8>)
    requires
        s.wf(),
    ensures
        ({
            let t = s.next(event);
            &&& t.routes.contains_key(d) <==> match event {
                ServerEvent::Accepted { dcid, scid, from } => d == dcid || s.routes.contains_key(d),
                ServerEvent::Reaped { closed } => s.routes.contains_key(d) && !closed.contains(
                    s.routes[d],
                ),
                _ => s.routes.contains_key(d),
            }
            &&& t.routes.contains_key(d) ==> t.routes[d] == match event {
                ServerEvent::Accepted { dcid, scid, from } => if d == dcid {
                    scid
                } else {
                    s.routes[d]
                },
                _ => s.routes[d],
            }
            &&& t.swept_at == match event {
                ServerEvent::Pass { now } => if now >= s.swept_at + 1_000_000_000 {
                    now
                } else {
                    s.swept_at
                },
                _ => s.swept_at,
            }
        }),
{
    lemma_due_when(None, s.swept_at, FLOW_SWEEP_INTERVAL, s.swept_at);
    if let ServerEvent::Pass { now } = event {
        lemma_due_when(None, s.swept_at, FLOW_SWEEP_INTERVAL, now);
    }
}

/// An open flow goes away by the end of its stream, the reaping of its connection, an
/// acceptance under its connection ID, or a pass that comes a second or more after the
/// last sweep and at which its idle timeout has gone by since its last activity, and by
/// nothing else.
pub proof fn lemma_flow_goes_away<T>(
    s: ServerState<T>,
    event: ServerEvent<T>,
    c: Seq<u8>,
    id: u64,
)
    requires
        s.wf(),
        s.clients.contains_key(c),
        s.clients[c].flows.contains_key(id),
    ensures
        ({
            let t = s.next(event);
            let f = s.clients[c].flows[id];
            let open = t.clients.contains_key(c) && t.clients[c].flows.contains_key(id);
            match event {
                ServerEvent::Closed { conn_id, stream_id } => open <==> !(conn_id == c && stream_id
                    / 4 == id),
                ServerEvent::Reaped { closed } => open <==> !closed.contains(c),
                ServerEvent::Accepted { scid, .. } => open <==> scid != c,
                ServerEvent::Pass { now } => open <==> !(now >= s.swept_at + 1_000_000_000 && (
                f.idle_timeout matches Some(d) && (d == 0 || now >= f.last_activity + d))),
                _ => open,
            }
        }),
{
    if let ServerEvent::Pass { now } = event {
        lemma_due_when(None, s.swept_at, FLOW_SWEEP_INTERVAL, now);
        lemma_sweep_closes(s.clients[c].flows, now, id);
    }
}

/// A flow that stays open stays what it is: nothing but opening it anew changes where it
/// leads or its idle timeout, and only traffic on it changes its last activity, to the
/// time of that traffic. Traffic is a payload from its target, or a datagram of its client
/// that carries a raw UDP payload for it.
pub proof fn lemma_flow_stays_the_same<T>(
    s: ServerState<T>,
    event: ServerEvent<T>,
    c: Seq<u8>,
    id: u64,
)
    requires
        s.wf(),
        s.clients.contains_key(c),
        s.clients[c].flows.contains_key(id),
        s.next(event).clients.contains_key(c),
        s.next(event).clients[c].flows.contains_key(id),
    ensures
        ({
            let f = s.clients[c].flows[id];
            let g = s.next(event).clients[c].flows[id];
            let opened = event matches ServerEvent::Opened { conn_id, stream_id, .. } && conn_id
                == c && stream_id / 4 == id;
            &&& !opened ==> g.to_target == f.to_target && g.idle_timeout == f.idle_timeout
            &&& match event {
                ServerEvent::FromTarget { conn_id, flow_id, now } => g.last_activity == if conn_id
                    == c && flow_id == id {
                    now
                } else {
                    f.last_activity
                },
                ServerEvent::FromClient { conn_id, datagram, now } => g.last_activity == if conn_id
                    == c && (dgram::spec_decode(datagram) matches Some((i, k, _)) && i == id && k
                    == 0) {
                    now
                } else {
                    f.last_activity
                },
                ServerEvent::Opened { .. } => !opened ==> g.last_activity == f.last_activity,
                _ => g.last_activity == f.last_activity,
            }
        }),
{
}

/// A flow is opened only for a request stream of a connection that exists, under a fourth
/// of the stream's id; then it leads to the target that was given, with the idle timeout
/// that was given, counted from the opening.
pub proof fn lemma_flow_opened<T>(
    s: ServerState<T>,
    event: ServerEvent<T>,
    c: Seq<u8>,
    id: u64,
)
    requires
        s.wf(),
    ensures
        ({
            let t = s.next(event);
            let had = s.clients.contains_key(c) && s.clients[c].flows.contains_key(id);
            let open = t.clients.contains_key(c) && t.clients[c].flows.contains_key(id);
            &&& open && !had ==> (event matches ServerEvent::Opened { conn_id, stream_id, .. }
                && conn_id == c && stream_id / 4 == id)
            &&& event matches ServerEvent::Opened {
                conn_id,
                stream_id,
                to_target,
                idle_timeout,
                now,
            } ==> (conn_id == c && stream_id / 4 == id && s.clients.contains_key(c) ==> {
                &&& open
                &&& t.clients[c].flows[id].to_target == to_target
                &&& t.clients[c].flows[id].idle_timeout == idle_timeout
                &&& t.clients[c].flows[id].last_activity == now
            })
        }),
{
}

/// A flow relays from its opening on, whatever comes between that does not end it: a
/// payload that the client frames for the flow goes to the flow's target, unchanged.
pub proof fn lemma_open_flow_relays<T>(
    s: ServerState<T>,
    events: Seq<ServerEvent<T>>,
    c: Seq<u8>,
    id: u64,
    payload: Seq<u8>,
)
    requires
        s.wf(),
        s.clients.contains_key(c),
        s.clients[c].flows.contains_key(id),
        id < 0x4000_0000_0000_0000,
        forall|i: int|
            0 <= i < events.len() ==> match #[trigger] events[i] {
                ServerEvent::Packet { .. } => true,
                ServerEvent::Accepted { scid, .. } => scid != c,
                ServerEvent::Opened { conn_id, stream_id, .. } => conn_id != c || stream_id / 4
                    != id,
                ServerEvent::Closed { conn_id, stream_id } => conn_id != c || stream_id / 4 != id,
                ServerEvent::FromTarget { .. } => true,
                ServerEvent::FromClient { .. } => true,
                ServerEvent::Reaped { closed } => !closed.contains(c),
                ServerEvent::Pass { .. } => s.clients[c].flows[id].idle_timeout is None,
            },
    ensures
        ({
            let t = s.after(events);
            &&& t.clients.contains_key(c)
            &&& addressed(t.clients[c].flows, dgram::spec_encode(id, payload)) == Some(
                (id, payload),
            )
            &&& t.clients[c].flows[id].to_target == s.clients[c].flows[id].to_target
        }),
{
    lemma_flow_survives(s, events, c, id);
    lemma_payload_delivered(s.after(events).clients[c].flows, id, payload);
}

proof fn lemma_flow_survives<T>(
    s: ServerState<T>,
    events: Seq<ServerEvent<T>>,
    c: Seq<u8>,
    id: u64,
)
    requires
        s.wf(),
        s.clients.contains_key(c),
        s.clients[c].flows.contains_key(id),
        forall|i: int|
            0 <= i < events.len() ==> match #[trigger] events[i] {
                ServerEvent::Packet { .. } => true,
                ServerEvent::Accepted { scid, .. } => scid != c,
                ServerEvent::Opened { conn_id, stream_id, .. } => conn_id != c || stream_id / 4
                    != id,
                ServerEvent::Closed { conn_id, stream_id } => conn_id != c || stream_id / 4 != id,
                ServerEvent::FromTarget { .. } => true,
                ServerEvent::FromClient { .. } => true,
                ServerEvent::Reaped { closed } => !closed.contains(c),
                ServerEvent::Pass { .. } => s.clients[c].flows[id].idle_timeout is None,
            },
    ensures
        s.after(events).wf(),
        s.after(events).clients.contains_key(c),
        s.after(events).clients[c].flows.contains_key(id),
        s.after(events).clients[c].flows[id].to_target == s.clients[c].flows[id].to_target,
        s.after(events).clients[c].flows[id].idle_timeout == s.clients[c].flows[id].idle_timeout,
    decreases events.len(),
{
    if events.len() > 0 {
        let before = events.drop_last();
        assert forall|i: int| 0 <= i < before.len() implies before[i] == #[trigger] events[i] by {}
        lemma_flow_survives(s, before, c, id);
        let t = s.after(before);
        let e = events[events.len() - 1];
        assert(s.after(events) == t.next(e));
        lemma_next_wf(t, e);
        lemma_flow_goes_away(t, e, c, id);
        lemma_flow_stays_the_same(t, e, c, id);
    }
}

/// A request for a path at an authority is decided by the first rule with that authority
/// and that path, where the paths hold no queries: its target and its settings are what
/// the flow is opened with.
pub proof fn lemma_request_matched_exactly(
    authority: Seq<char>,
    path: Seq<char>,
    rules: Seq<RuleView>,
    i: int,
)
    requires
        !path.contains('?'),
        forall|j: int| 0 <= j < rules.len() ==> !(#[trigger] rules[j]).path.contains('?'),
        0 <= i <= rules.len(),
        forall|j: int|
            0 <= j < i ==> (#[trigger] rules[j]).authority != authority || rules[j].path != path,
        i < rules.len() ==> rules[i].authority == authority && rules[i].path == path,
    ensures
        i < rules.len() ==> spec_match_target(rules, authority, path) == Some(rules[i].decision),
        i == rules.len() ==> spec_match_target(rules, authority, path) is None,
        forall|client_addr: SocketAddr, linux: bool|
            i == rules.len() ==> #[trigger] spec_decision(
                connect_fields(authority, path),
                rules,
                client_addr,
                linux,
            ) == (ConnectDecision::Refuse { status: 404 }),
        forall|client_addr: SocketAddr, linux: bool|
            i < rules.len() ==> match #[trigger] spec_decision(
                connect_fields(authority, path),
                rules,
                client_addr,
                linux,
            ) {
                ConnectDecision::Open { rule, .. } => rule == rules[i].decision,
                ConnectDecision::Refuse { status } => status == 502 && (
                rules[i].decision.transparent || rules[i].decision.fwmark is Some),
            },
{
    lemma_request_roundtrip(authority, path);
    lemma_first_exact_rule(rules, authority, path, i);
}

/// Where a request is refused although a rule applies, the system lacks what the rule asks
/// for, or a transparent rule leads to another address family than the client's.
pub proof fn lemma_refusals(
    headers: Seq<HeaderView>,
    rules: Seq<RuleView>,
    client_addr: SocketAddr,
    linux: bool,
)
    ensures
        match spec_decision(headers, rules, client_addr, linux) {
            ConnectDecision::Refuse { status } => {
                ||| spec_connect_request(headers) == Err::<(Seq<char>, Seq<char>), _>(status)
                ||| status == 404 || status == 502
            },
            ConnectDecision::Open { rule, plan } => {
                &&& spec_connect_request(headers) is Ok
                &&& rule.transparent || rule.fwmark is Some ==> linux
                &&& rule.transparent == (plan is Transparent)
            },
        },
        spec_connect_request(headers) matches Ok((authority, path)) ==> (spec_match_target(
            rules,
            authority,
            path,
        ) matches Some(rule) ==> (spec_decision(headers, rules, client_addr, linux) is Open
            <==> spec_target_plan(
            rule.target,
            client_addr,
            rule.transparent,
            rule.fwmark,
            linux,
        ) is Ok)),
        spec_connect_request(headers) matches Err(status) ==> spec_decision(
            headers,
            rules,
            client_addr,
            linux,
        ) == (ConnectDecision::Refuse { status }),
        linux && (spec_connect_request(headers) matches Ok((authority, path)) && (spec_match_target(
            rules,
            authority,
            path,
        ) matches Some(rule) && !rule.transparent)) ==> spec_decision(
            headers,
            rules,
            client_addr,
            linux,
        ) is Open,
{
}

/// The least of some timers: one of them, and no other is less; none if all are unset.
pub proof fn lemma_min_timeout(timeouts: Seq<Option<u128>>, r: Option<u128>, i: int, t: u128)
    requires
        is_min_timeout(timeouts, r),
    ensures
        0 <= i < timeouts.len() && timeouts[i] == Some(t) ==> r is Some && r->0 <= t,
        r is Some ==> timeouts.contains(r),
{
}

/// A list of closed flows names a flow by its connection and its request stream, exactly
/// if the idle timeout of the flow has gone by since its last activity.
pub proof fn lemma_closed_flows_listed<T>(
    s: ServerState<T>,
    now: u128,
    r: Seq<ClosedFlow>,
    c: Seq<u8>,
    id: u64,
)
    requires
        s.wf(),
        lists_idle(s, now, r),
        s.clients.contains_key(c),
        s.clients[c].flows.contains_key(id),
        s.clients[c].flows[id].idle_timeout matches Some(d) ==> d > 0,
    ensures
        (exists|i: int|
            0 <= i < r.len() && (#[trigger] r[i]).conn_id@ == c && r[i].stream_id == 4 * id) <==> (
        s.clients[c].flows[id].idle_timeout matches Some(d) && now
            >= s.clients[c].flows[id].last_activity + d),
{
    let f = s.clients[c].flows[id];
    lemma_sweep_closes(s.clients[c].flows, now, id);
    if let Some(d) = f.idle_timeout {
        if now >= f.last_activity + d {
            assert(s.has_idle(now, c, id));
        }
    }
    if exists|i: int|
        0 <= i < r.len() && (#[trigger] r[i]).conn_id@ == c && r[i].stream_id == 4 * id {
        let i = choose|i: int|
            0 <= i < r.len() && (#[trigger] r[i]).conn_id@ == c && r[i].stream_id == 4 * id;
        assert(s.has_idle(now, r[i].conn_id@, flow_of(r[i].stream_id)));
    }
}

/// The flow id of the n-th request stream of a client is n.
pub proof fn lemma_flow_ids(n: u64)
    requires
        4 * n <= u64::MAX,
    ensures
        flow_of((4 * n) as u64) == n,
{
}

/// The connections in a list are those that stand in it.
pub proof fn lemma_members(s: Seq<Vec<u8>>, k: Seq<u8>)
    ensures
        members(s).contains(k) <==> exists|i: int| 0 <= i < s.len() && (#[trigger] s[i])@ == k,
{
}

/// A list of closed flows names no flow twice and only flows that were open.
pub proof fn lemma_closed_flows_once<T>(
    s: ServerState<T>,
    now: u128,
    r: Seq<ClosedFlow>,
    i: int,
    j: int,
)
    requires
        lists_idle(s, now, r),
        0 <= i < r.len(),
    ensures
        s.clients.contains_key(r[i].conn_id@),
        s.clients[r[i].conn_id@].flows.contains_key((r[i].stream_id / 4) as u64),
        r[i].stream_id % 4 == 0,
        i < j < r.len() ==> r[i].conn_id@ != r[j].conn_id@ || r[i].stream_id != r[j].stream_id,
{
    assert(s.has_idle(now, r[i].conn_id@, flow_of(r[i].stream_id)));
}

/// A proxy starts without connections and routes, and its first sweep is due a second after
/// the start.
pub proof fn lemma_start<T>(now: u128, later: u128, k: Seq<u8>)
    ensures
        ({
            let s = ServerState::<T>::initial(now);
            &&& !s.clients.contains_key(k)
            &&& !s.routes.contains_key(k)
            &&& s.destination(k) is None
            &&& sweep_left(s.swept_at, later) == 0 <==> later >= now + 1_000_000_000
        }),
{
    lemma_due_when(None, now, FLOW_SWEEP_INTERVAL, later);
}

/// Sweeping closes flows of existing connections and nothing else, and notes the time.
pub proof fn lemma_sweep_frame<T>(s: ServerState<T>, now: u128, c: Seq<u8>, id: u64)
    ensures
        ({
            let t = s.swept(now);
            &&& t.routes == s.routes
            &&& t.swept_at == now
            &&& t.clients.contains_key(c) <==> s.clients.contains_key(c)
            &&& s.clients.contains_key(c) ==> {
                let f = s.clients[c].flows[id];
                &&& t.clients[c].peer == s.clients[c].peer
                &&& t.clients[c].flows.contains_key(id) <==> s.clients[c].flows.contains_key(id)
                    && !(f.idle_timeout matches Some(d) && (d == 0 || now >= f.last_activity + d))
                &&& t.clients[c].flows.contains_key(id) ==> t.clients[c].flows[id] == f
            }
        }),
{
}

} // verus!
