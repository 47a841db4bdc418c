//! The client as a local UDP proxy: every datagram received on a local socket goes
//! through the tunnel, on one CONNECT-UDP flow for each local source address, and
//! replies are relayed back to that address.
//!
//! The first datagram of a flow waits for the answer of the proxy. A flow that the
//! proxy closes is forgotten; the next datagram from its source opens another. When
//! the connection is lost all flows are forgotten, and the proxy is dialled again
//! after a delay that grows with each failure.

use vstd::prelude::*;

use crate::addr::SocketAddr;
use crate::batch::contents;
use crate::bytes::copy_of;
use crate::client::grants;
use crate::dgram;
use crate::quic::IDLE_TIMEOUT_MS;
use crate::request::fields;
use crate::request::spec_status;
use crate::request::status_of;
use crate::request::Header;
use crate::server::flow_id_of;
use crate::server::flow_of;
use crate::timer::shorter;
use crate::timer::shorter_wait;
use crate::timer::time_left;
use crate::timer::time_until_due;
use crate::util::CHANNEL_CAP;
use crate::varint;

verus! {

/// The first delay before the proxy is dialled again, in milliseconds.
pub const BACKOFF_MIN_MS: u64 = 100;

/// The longest delay before the proxy is dialled again, in milliseconds.
pub const BACKOFF_MAX_MS: u64 = 5_000;

/// How often to send a keepalive, in nanoseconds.
pub const KEEPALIVE_INTERVAL: u128 = 1_000_000_000;

/// Twice a delay, up to the longest one.
pub open spec fn doubled(delay: int) -> int {
    if 2 * delay > BACKOFF_MAX_MS {
        BACKOFF_MAX_MS as int
    } else {
        2 * delay
    }
}

/// The delay after some failures in a row.
pub open spec fn nth_delay(failures: nat) -> int
    decreases failures,
{
    if failures == 0 {
        BACKOFF_MIN_MS as int
    } else {
        doubled(nth_delay((failures - 1) as nat))
    }
}

/// Capped exponential backoff.
#[derive(Clone, Copy, Debug, PartialEq, Eq, Structural)]
pub struct Backoff {
    delay: u64,
}

impl Backoff {
    /// The delay after the next failure.
    pub closed spec fn delay(self) -> int {
        self.delay as int
    }

    /// The delay is within its bounds.
    pub open spec fn wf(self) -> bool {
        BACKOFF_MIN_MS <= self.delay() <= BACKOFF_MAX_MS
    }

    /// No failure yet.
    pub fn new() -> (r: Self)
        ensures
            r.wf(),
            r.delay() == nth_delay(0),
    {
        Backoff { delay: BACKOFF_MIN_MS }
    }

    /// How long to wait after a failure, in milliseconds; the next delay is twice as
    /// long, up to the longest.
    pub fn next_delay(&mut self) -> (r: u64)
        requires
            old(self).wf(),
        ensures
            final(self).wf(),
            r == old(self).delay(),
            final(self).delay() == doubled(old(self).delay()),
    {
        let r: u64 = self.delay;
        self.delay = if r > BACKOFF_MAX_MS / 2 {
            BACKOFF_MAX_MS
        } else {
            2 * r
        };
        r
    }

    /// The proxy was reached.
    pub fn reset(&mut self)
        ensures
            final(self).wf(),
            final(self).delay() == nth_delay(0),
    {
        self.delay = BACKOFF_MIN_MS;
    }
}

/// The delays start at the shortest, never shrink and never exceed the longest,
/// which the seventh failure in a row and all later ones get.
pub proof fn lemma_backoff(failures: nat)
    ensures
        BACKOFF_MIN_MS <= nth_delay(failures) <= BACKOFF_MAX_MS,
        nth_delay(failures) <= nth_delay(failures + 1),
        failures >= 6 ==> nth_delay(failures) == BACKOFF_MAX_MS,
    decreases failures,
{
    if failures > 0 {
        lemma_backoff((failures - 1) as nat);
    }
    if failures >= 6 {
        if failures == 6 {
            reveal_with_fuel(nth_delay, 8);
        }
    }
}

/// The keepalives of one connection.
#[derive(Clone, Copy, Debug, PartialEq, Eq, Structural)]
pub struct Keepalive {
    /// When the last one was sent, or the connection was started.
    pub sent_at: u128,
}

impl Keepalive {
    /// The connection is started at `now`.
    pub fn new(now: u128) -> (r: Self)
        ensures
            r.sent_at == now,
    {
        Keepalive { sent_at: now }
    }

    /// Whether to send a keepalive now. To be asked on every pass of the event loop,
    /// whatever woke it.
    pub fn due(&mut self, now: u128) -> (r: bool)
        ensures
            r == (time_left(old(self).sent_at, KEEPALIVE_INTERVAL, now) == 0),
            r <==> now >= old(self).sent_at + 1_000_000_000,
            final(self).sent_at == if r {
                now
            } else {
                old(self).sent_at
            },
    {
        let due = time_until_due(self.sent_at, KEEPALIVE_INTERVAL, now) == 0;
        if due {
            self.sent_at = now;
        }
        due
    }

    /// How long the event loop may wait: until the timer fires or a keepalive is due,
    /// whichever comes first.
    pub fn next_wait(&self, timer: Option<u128>, now: u128) -> (r: u128)
        ensures
            r == shorter(timer, time_left(self.sent_at, KEEPALIVE_INTERVAL, now)),
    {
        shorter_wait(timer, time_until_due(self.sent_at, KEEPALIVE_INTERVAL, now))
    }
}

/// A flow of the local proxy: where its datagrams come from, its request stream,
/// and the payloads that wait for the answer of the proxy, until that has come.
#[verifier::ext_equal]
pub struct LocalFlowView {
    pub source: SocketAddr,
    pub stream_id: u64,
    pub waiting: Option<Seq<Seq<u8>>>,
}

#[derive(Debug)]
struct LocalFlow {
    source: SocketAddr,
    stream_id: u64,
    waiting: Option<Vec<Vec<u8>>>,
}

impl View for LocalFlow {
    type V = LocalFlowView;

    closed spec fn view(&self) -> LocalFlowView {
        LocalFlowView {
            source: self.source,
            stream_id: self.stream_id,
            waiting: match self.waiting {
                Some(w) => Some(contents(w@)),
                None => None,
            },
        }
    }
}

/// No two flows have one source, and no two have one flow id.
pub open spec fn distinct_flows(s: Seq<LocalFlowView>) -> bool {
    forall|i: int, j: int|
        0 <= i < j < s.len() ==> (#[trigger] s[i]).source != (#[trigger] s[j]).source && flow_of(
            s[i].stream_id,
        ) != flow_of(s[j].stream_id)
}

/// Whether the flow at `i` has this source.
pub open spec fn is_from(s: Seq<LocalFlowView>, source: SocketAddr, i: int) -> bool {
    0 <= i < s.len() && s[i].source == source
}

/// Whether the flow at `i` has this flow id.
pub open spec fn has_id(s: Seq<LocalFlowView>, id: u64, i: int) -> bool {
    0 <= i < s.len() && flow_of(s[i].stream_id) == id
}

/// The place of the flow with this source.
pub open spec fn from_source(s: Seq<LocalFlowView>, source: SocketAddr) -> Option<int> {
    if exists|i: int| is_from(s, source, i) {
        Some(choose|i: int| is_from(s, source, i))
    } else {
        None
    }
}

/// The place of the flow with this flow id.
pub open spec fn with_id(s: Seq<LocalFlowView>, id: u64) -> Option<int> {
    if exists|i: int| has_id(s, id, i) {
        Some(choose|i: int| has_id(s, id, i))
    } else {
        None
    }
}

/// The local source and the payload of a datagram from the proxy: a raw UDP payload
/// on a flow that is known.
pub open spec fn spec_back(s: Seq<LocalFlowView>, datagram: Seq<u8>) -> Option<
    (SocketAddr, Seq<u8>),
> {
    match dgram::spec_decode(datagram) {
        Some((id, context, payload)) => match with_id(s, id) {
            Some(i) => if context == dgram::CONTEXT_ID_UDP {
                Some((s[i].source, payload))
            } else {
                None
            },
            None => None,
        },
        None => None,
    }
}

/// The datagrams that carry some payloads on a flow.
pub open spec fn framed(id: u64, payloads: Seq<Seq<u8>>) -> Seq<Seq<u8>> {
    payloads.map_values(|p: Seq<u8>| dgram::spec_encode(id, p))
}

/// What to do with a local datagram.
#[derive(Debug)]
pub enum LocalStep {
    /// Open a flow for its source.
    Open,
    /// It waits for the answer of the proxy.
    Wait,
    /// Drop it: too many wait.
    Discard,
    /// Send this datagram through the tunnel.
    Send(Vec<u8>),
}

/// What the answer of the proxy means.
#[derive(Debug)]
pub enum AnswerStep {
    /// It belongs to no flow.
    Unknown,
    /// The flow is open: send these datagrams, which have waited.
    Granted(Vec<Vec<u8>>),
    /// The flow is refused and forgotten.
    Refused,
}

/// The flows of the local proxy on one connection.
#[derive(Debug)]
pub struct Tunnel {
    flows: Vec<LocalFlow>,
}

impl View for Tunnel {
    type V = Seq<LocalFlowView>;

    closed spec fn view(&self) -> Seq<LocalFlowView> {
        self.flows@.map_values(|f: LocalFlow| f@)
    }
}

proof fn lemma_from(s: Seq<LocalFlowView>, source: SocketAddr, i: int)
    requires
        distinct_flows(s),
        is_from(s, source, i),
    ensures
        from_source(s, source) == Some(i),
{
    let j = choose|j: int| is_from(s, source, j);
    assert(is_from(s, source, j));
}

proof fn lemma_id(s: Seq<LocalFlowView>, id: u64, i: int)
    requires
        distinct_flows(s),
        has_id(s, id, i),
    ensures
        with_id(s, id) == Some(i),
{
    let j = choose|j: int| has_id(s, id, j);
    assert(has_id(s, id, j));
}

impl Tunnel {
    /// No flow.
    pub fn new() -> (r: Self)
        ensures
            distinct_flows(r@),
            r@.len() == 0,
    {
        Tunnel { flows: Vec::new() }
    }

    fn find_source(&self, source: SocketAddr) -> (r: Option<usize>)
        requires
            distinct_flows(self@),
        ensures
            match r {
                Some(i) => from_source(self@, source) == Some(i as int) && is_from(
                    self@,
                    source,
                    i as int,
                ),
                None => from_source(self@, source) is None,
            },
    {
        let mut i: usize = 0;
        while i < self.flows.len()
            invariant
                distinct_flows(self@),
                i <= self.flows@.len(),
                forall|k: int| 0 <= k < i ==> !#[trigger] is_from(self@, source, k),
            decreases self.flows@.len() - i,
        {
            if self.flows[i].source == source {
                proof {
                    lemma_from(self@, source, i as int);
                }
                return Some(i);
            }
            i = i + 1;
        }
        None
    }

    fn find_id(&self, id: u64) -> (r: Option<usize>)
        requires
            distinct_flows(self@),
        ensures
            match r {
                Some(i) => with_id(self@, id) == Some(i as int) && has_id(self@, id, i as int),
                None => with_id(self@, id) is None,
            },
    {
        let mut i: usize = 0;
        while i < self.flows.len()
            invariant
                distinct_flows(self@),
                i <= self.flows@.len(),
                forall|k: int| 0 <= k < i ==> !#[trigger] has_id(self@, id, k),
            decreases self.flows@.len() - i,
        {
            if flow_id_of(self.flows[i].stream_id) == id {
                proof {
                    lemma_id(self@, id, i as int);
                }
                return Some(i);
            }
            i = i + 1;
        }
        None
    }

    /// Take in a datagram from a local source. On a flow that the proxy has granted
    /// it goes out at once; on one that it has not yet answered it waits behind those
    /// before it, as long as there is room.
    pub fn on_local(&mut self, source: SocketAddr, payload: &[u8]) -> (r: LocalStep)
        requires
            distinct_flows(old(self)@),
        ensures
            distinct_flows(final(self)@),
            match from_source(old(self)@, source) {
                None => r == LocalStep::Open && final(self)@ == old(self)@,
                Some(i) => match old(self)@[i].waiting {
                    None => {
                        &&& r matches LocalStep::Send(d) && d@ == dgram::spec_encode(
                            flow_of(old(self)@[i].stream_id),
                            payload@,
                        )
                        &&& final(self)@ == old(self)@
                    },
                    Some(w) => if w.len() < CHANNEL_CAP {
                        &&& r == LocalStep::Wait
                        &&& final(self)@ == old(self)@.update(
                            i,
                            LocalFlowView {
                                source: old(self)@[i].source,
                                stream_id: old(self)@[i].stream_id,
                                waiting: Some(w.push(payload@)),
                            },
                        )
                    } else {
                        r == LocalStep::Discard && final(self)@ == old(self)@
                    },
                },
            },
            r is Discard <==> exists|i: int|
                0 <= i < old(self)@.len() && (#[trigger] old(self)@[i]).source == source && (
                old(self)@[i].waiting matches Some(w) && w.len() >= 1024),
            r is Open <==> forall|i: int|
                0 <= i < old(self)@.len() ==> (#[trigger] old(self)@[i]).source != source,
    {
        proof {
            lemma_flow_of_source(self@, source);
        }
        let i: usize = match self.find_source(source) {
            Some(i) => i,
            None => return LocalStep::Open,
        };
        let ghost before = self@;
        assert(before[i as int] == self.flows@[i as int]@);
        let f = self.flows.remove(i);
        match f.waiting {
            None => {
                let d = dgram::encode(flow_id_of(f.stream_id), payload);
                self.flows.insert(i, LocalFlow {
                    source: f.source,
                    stream_id: f.stream_id,
                    waiting: None,
                });
                assert(self@ =~= before);
                LocalStep::Send(d)
            },
            Some(w) => {
                let mut w = w;
                let ghost had = contents(w@);
                let room = w.len() < CHANNEL_CAP;
                if room {
                    let p = copy_of(payload, 0, payload.len());
                    assert(p@ =~= payload@);
                    w.push(p);
                    assert(contents(w@) =~= had.push(payload@));
                }
                let ghost now = contents(w@);
                self.flows.insert(i, LocalFlow {
                    source: f.source,
                    stream_id: f.stream_id,
                    waiting: Some(w),
                });
                let ghost one = LocalFlowView {
                    source: f.source,
                    stream_id: f.stream_id,
                    waiting: Some(now),
                };
                assert(self@ =~= before.update(i as int, one));
                if room {
                    LocalStep::Wait
                } else {
                    assert(self@ =~= before);
                    LocalStep::Discard
                }
            },
        }
    }

    /// A request for a flow from `source` went out on a stream; `payload` waits for
    /// the answer. If the source or the stream already has a flow, nothing changes
    /// and `false` comes back.
    pub fn on_opened(&mut self, source: SocketAddr, stream_id: u64, payload: &[u8]) -> (r: bool)
        requires
            distinct_flows(old(self)@),
        ensures
            distinct_flows(final(self)@),
            r == (from_source(old(self)@, source) is None && with_id(
                old(self)@,
                flow_of(stream_id),
            ) is None),
            final(self)@ == if r {
                old(self)@.push(
                    LocalFlowView { source, stream_id, waiting: Some(seq![payload@]) },
                )
            } else {
                old(self)@
            },
    {
        if self.find_source(source).is_some() || self.find_id(flow_id_of(stream_id)).is_some() {
            return false;
        }
        let ghost before = self@;
        let p = copy_of(payload, 0, payload.len());
        assert(p@ =~= payload@);
        let mut w: Vec<Vec<u8>> = Vec::new();
        w.push(p);
        assert(contents(w@) =~= seq![payload@]);
        self.flows.push(LocalFlow { source, stream_id, waiting: Some(w) });
        proof {
            let one = LocalFlowView { source, stream_id, waiting: Some(seq![payload@]) };
            assert(self@ =~= before.push(one));
            assert forall|i: int| 0 <= i < before.len() implies (#[trigger] before[i]).source
                != source && flow_of(before[i].stream_id) != flow_of(stream_id) by {
                assert(!is_from(before, source, i));
                assert(!has_id(before, flow_of(stream_id), i));
            }
        }
        true
    }

    /// The proxy has answered the request on a stream.
    pub fn on_answer(&mut self, stream_id: u64, headers: &[Header]) -> (r: AnswerStep)
        requires
            distinct_flows(old(self)@),
        ensures
            distinct_flows(final(self)@),
            match with_id(old(self)@, flow_of(stream_id)) {
                None => r == AnswerStep::Unknown && final(self)@ == old(self)@,
                Some(i) => if spec_status(fields(headers@)) matches Some(s) && grants(s) {
                    &&& r matches AnswerStep::Granted(ds) && contents(ds@) == framed(
                        flow_of(stream_id),
                        match old(self)@[i].waiting {
                            Some(w) => w,
                            None => Seq::empty(),
                        },
                    )
                    &&& final(self)@ == old(self)@.update(
                        i,
                        LocalFlowView {
                            source: old(self)@[i].source,
                            stream_id: old(self)@[i].stream_id,
                            waiting: None,
                        },
                    )
                } else {
                    r == AnswerStep::Refused && final(self)@ == old(self)@.remove(i)
                },
            },
            !(r is Unknown) ==> (r is Granted <==> (spec_status(fields(headers@)) matches Some(s)
                && 200 <= s <= 299)),
    {
        let i: usize = match self.find_id(flow_id_of(stream_id)) {
            Some(i) => i,
            None => return AnswerStep::Unknown,
        };
        let ghost before = self@;
        assert(before[i as int] == self.flows@[i as int]@);
        let f = self.flows.remove(i);
        proof {
            assert(self@ =~= before.remove(i as int));
            lemma_remove_distinct(before, i as int);
        }
        let granted = match status_of(headers) {
            Some(s) => 200 <= s && s < 300,
            None => false,
        };
        if !granted {
            return AnswerStep::Refused;
        }
        let datagrams = match f.waiting {
            Some(w) => frame(flow_id_of(stream_id), &w),
            None => {
                let none: Vec<Vec<u8>> = Vec::new();
                assert(contents(none@) =~= framed(flow_of(stream_id), Seq::empty()));
                none
            },
        };
        self.flows.insert(i, LocalFlow {
            source: f.source,
            stream_id: f.stream_id,
            waiting: None,
        });
        proof {
            let one = LocalFlowView {
                source: f.source,
                stream_id: f.stream_id,
                waiting: None,
            };
            assert(self@ =~= before.update(i as int, one));
        }
        AnswerStep::Granted(datagrams)
    }

    /// A stream has ended: its flow is forgotten.
    pub fn on_stream_closed(&mut self, stream_id: u64)
        requires
            distinct_flows(old(self)@),
        ensures
            distinct_flows(final(self)@),
            final(self)@ == match with_id(old(self)@, flow_of(stream_id)) {
                Some(i) => old(self)@.remove(i),
                None => old(self)@,
            },
    {
        if let Some(i) = self.find_id(flow_id_of(stream_id)) {
            let ghost before = self@;
            let _ = self.flows.remove(i);
            proof {
                assert(self@ =~= before.remove(i as int));
                lemma_remove_distinct(before, i as int);
            }
        }
    }

    /// Take in a datagram from the proxy: the local address to send its payload to.
    /// Anything but a raw UDP payload on a known flow is dropped.
    pub fn on_proxy_datagram(&self, datagram: &[u8]) -> (r: Option<(SocketAddr, Vec<u8>)>)
        requires
            distinct_flows(self@),
        ensures
            match r {
                Some((source, payload)) => spec_back(self@, datagram@) == Some((source, payload@)),
                None => spec_back(self@, datagram@) is None,
            },
    {
        let parsed = match dgram::decode(datagram) {
            Some(p) => p,
            None => return None,
        };
        let i: usize = match self.find_id(parsed.flow_id) {
            Some(i) => i,
            None => return None,
        };
        if parsed.context_id != dgram::CONTEXT_ID_UDP {
            return None;
        }
        let payload = copy_of(parsed.payload, 0, parsed.payload.len());
        assert(payload@ =~= parsed.payload@);
        Some((self.flows[i].source, payload))
    }
}

fn frame(id: u64, payloads: &[Vec<u8>]) -> (r: Vec<Vec<u8>>)
    ensures
        contents(r@) == framed(id, contents(payloads@)),
{
    let mut r: Vec<Vec<u8>> = Vec::new();
    let mut i: usize = 0;
    while i < payloads.len()
        invariant
            i <= payloads@.len(),
            r@.len() == i,
            forall|k: int|
                0 <= k < i ==> (#[trigger] r@[k])@ == dgram::spec_encode(id, payloads@[k]@),
        decreases payloads@.len() - i,
    {
        r.push(dgram::encode(id, &payloads[i]));
        i = i + 1;
    }
    assert(contents(r@) =~= framed(id, contents(payloads@)));
    r
}

proof fn lemma_remove_distinct(s: Seq<LocalFlowView>, i: int)
    requires
        distinct_flows(s),
        0 <= i < s.len(),
    ensures
        distinct_flows(s.remove(i)),
{
    let t = s.remove(i);
    assert forall|a: int, b: int| 0 <= a < b < t.len() implies (#[trigger] t[a]).source != (
    #[trigger] t[b]).source && flow_of(t[a].stream_id) != flow_of(t[b].stream_id) by {
        let a0 = if a < i { a } else { a + 1 };
        let b0 = if b < i { b } else { b + 1 };
        assert(t[a] == s[a0] && t[b] == s[b0]);
    }
}

/// A reply on the flow of a source goes back to that source, unchanged.
pub proof fn lemma_reply_reaches_source(s: Seq<LocalFlowView>, i: int, payload: Seq<u8>)
    requires
        distinct_flows(s),
        0 <= i < s.len(),
        flow_of(s[i].stream_id) < varint::VALUE_LIMIT,
    ensures
        spec_back(s, dgram::spec_encode(flow_of(s[i].stream_id), payload)) == Some(
            (s[i].source, payload),
        ),
{
    dgram::lemma_roundtrip(flow_of(s[i].stream_id), payload);
    assert(has_id(s, flow_of(s[i].stream_id), i));
    lemma_id(s, flow_of(s[i].stream_id), i);
}

/// A source whose flow has ended has none: its next datagram opens another.
pub proof fn lemma_source_reopens(s: Seq<LocalFlowView>, i: int)
    requires
        distinct_flows(s),
        0 <= i < s.len(),
    ensures
        from_source(s.remove(i), s[i].source) is None,
        distinct_flows(s.remove(i)),
{
    let t = s.remove(i);
    lemma_remove_distinct(s, i);
    assert forall|k: int| !is_from(t, s[i].source, k) by {
        if 0 <= k < t.len() {
            let k0 = if k < i { k } else { k + 1 };
            assert(t[k] == s[k0]);
        }
    }
}

/// The flow of a source is the one that has this source, and there is none if no flow has.
pub proof fn lemma_flow_of_source(s: Seq<LocalFlowView>, source: SocketAddr)
    requires
        distinct_flows(s),
    ensures
        match from_source(s, source) {
            Some(i) => {
                &&& 0 <= i < s.len()
                &&& s[i].source == source
                &&& forall|j: int| 0 <= j < s.len() && j != i ==> (#[trigger] s[j]).source != source
            },
            None => forall|j: int| 0 <= j < s.len() ==> (#[trigger] s[j]).source != source,
        },
{
    match from_source(s, source) {
        Some(i) => {
            assert(is_from(s, source, i));
        },
        None => {
            assert forall|j: int| 0 <= j < s.len() implies (#[trigger] s[j]).source != source by {
                assert(!is_from(s, source, j));
            }
        },
    }
}

/// The flow with a flow id is the one whose request stream has four times that id, where
/// streams are request streams, and there is none if no flow has such a stream.
pub proof fn lemma_flow_of_id(s: Seq<LocalFlowView>, id: u64)
    requires
        distinct_flows(s),
    ensures
        match with_id(s, id) {
            Some(i) => 0 <= i < s.len() && s[i].stream_id / 4 == id,
            None => forall|j: int| 0 <= j < s.len() ==> (#[trigger] s[j]).stream_id / 4 != id,
        },
{
    match with_id(s, id) {
        Some(i) => {
            assert(has_id(s, id, i));
        },
        None => {
            assert forall|j: int| 0 <= j < s.len() implies (#[trigger] s[j]).stream_id / 4
                != id by {
                assert(!has_id(s, id, j));
            }
        },
    }
}

/// Payloads are framed one by one, in their order, for the flow that they are sent on.
pub proof fn lemma_framed_in_order(id: u64, payloads: Seq<Seq<u8>>, i: int)
    requires
        0 <= i < payloads.len(),
        id < 0x4000_0000_0000_0000,
    ensures
        framed(id, payloads).len() == payloads.len(),
        dgram::spec_decode(framed(id, payloads)[i]) == Some((id, 0u64, payloads[i])),
{
    dgram::lemma_roundtrip(id, payloads[i]);
}

/// A datagram from the proxy reaches a local source only on the flow of that source, and
/// only as a raw UDP payload, which has the context 0.
pub proof fn lemma_only_udp_back(
    s: Seq<LocalFlowView>,
    id: u64,
    context: u64,
    payload: Seq<u8>,
)
    requires
        distinct_flows(s),
        id < 0x4000_0000_0000_0000,
        context < 0x4000_0000_0000_0000,
    ensures
        match spec_back(s, varint::spec_encode(id) + varint::spec_encode(context) + payload) {
            Some((source, sent)) => {
                &&& context == 0
                &&& sent == payload
                &&& exists|i: int|
                    0 <= i < s.len() && (#[trigger] s[i]).source == source && s[i].stream_id / 4
                        == id
            },
            None => context != 0 || forall|i: int|
                0 <= i < s.len() ==> (#[trigger] s[i]).stream_id / 4 != id,
        },
{
    dgram::lemma_any_context(id, context, payload);
    lemma_flow_of_id(s, id);
}

/// The delays in milliseconds, failure by failure.
pub proof fn lemma_delays_written_out(failures: nat)
    ensures
        nth_delay(0) == 100,
        nth_delay(1) == 200,
        nth_delay(2) == 400,
        nth_delay(3) == 800,
        nth_delay(4) == 1600,
        nth_delay(5) == 3200,
        failures >= 6 ==> nth_delay(failures) == 5000,
        nth_delay(failures + 1) == if 2 * nth_delay(failures) < 5000 {
            2 * nth_delay(failures)
        } else {
            5000
        },
        nth_delay(failures + 1) == doubled(nth_delay(failures)),
{
    lemma_backoff(failures);
    reveal_with_fuel(nth_delay, 7);
}

/// Keepalives go out often enough: one that is lost, or late by as much again, still leaves
/// the connection within its idle timeout.
pub proof fn lemma_keepalives_in_time()
    ensures
        KEEPALIVE_INTERVAL == 1_000_000_000,
        3 * KEEPALIVE_INTERVAL <= IDLE_TIMEOUT_MS * 1_000_000,
{
}

/// Whatever the form of its numbers, a datagram from the proxy reaches a local source
/// exactly if it is for a known flow and its context is 0.
pub proof fn lemma_back_when(s: Seq<LocalFlowView>, datagram: Seq<u8>)
    requires
        distinct_flows(s),
    ensures
        match dgram::spec_decode(datagram) {
            Some((id, context, payload)) => match spec_back(s, datagram) {
                Some((source, sent)) => context == 0 && sent == payload && exists|i: int|
                    0 <= i < s.len() && (#[trigger] s[i]).source == source && s[i].stream_id / 4
                        == id,
                None => context != 0 || forall|i: int|
                    0 <= i < s.len() ==> (#[trigger] s[i]).stream_id / 4 != id,
            },
            None => spec_back(s, datagram) is None,
        },
{
    if let Some((id, _, _)) = dgram::spec_decode(datagram) {
        lemma_flow_of_id(s, id);
    }
}

} // verus!
