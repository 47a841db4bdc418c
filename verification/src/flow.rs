//! The active CONNECT-UDP flows of one connection, with their idle timeouts.
//!
//! Times are nanoseconds since some fixed instant.

use std::collections::HashMap;
use vstd::prelude::*;
use vstd::std_specs::iter::IteratorSpec;

use crate::bytes::copy_of;
use crate::dgram;
use crate::timer::elapsed;
use crate::timer::time_since;
use crate::varint;

verus! {

broadcast use vstd::std_specs::hash::group_hash_axioms;

/// One active flow: the handle that feeds its target socket plus idle-timeout
/// bookkeeping.
#[derive(Debug)]
pub struct Flow<T> {
    pub to_target: T,
    /// Last time a datagram crossed this flow in either direction.
    pub last_activity: u128,
    /// Idle timeout in nanoseconds; `None` disables it.
    pub idle_timeout: Option<u128>,
}

impl<T> Flow<T> {
    /// Whether the flow has had no traffic for its idle timeout.
    pub open spec fn spec_idle(self, now: u128) -> bool {
        match self.idle_timeout {
            Some(d) => elapsed(self.last_activity, now) >= d,
            None => false,
        }
    }

    /// The flow after traffic at `now`.
    pub open spec fn touched(self, now: u128) -> Flow<T> {
        Flow {
            to_target: self.to_target,
            last_activity: now,
            idle_timeout: self.idle_timeout,
        }
    }

    /// Whether the flow has had no traffic for its idle timeout.
    pub fn idle(&self, now: u128) -> (r: bool)
        ensures
            r == self.spec_idle(now),
    {
        match self.idle_timeout {
            Some(d) => time_since(self.last_activity, now) >= d,
            None => false,
        }
    }
}

/// The flows after traffic on `id` at `now`.
pub open spec fn touch_flow<T>(flows: Map<u64, Flow<T>>, id: u64, now: u128) -> Map<u64, Flow<T>> {
    if flows.contains_key(id) {
        flows.insert(id, flows[id].touched(now))
    } else {
        flows
    }
}

/// The flows that are not idle at `now`.
pub open spec fn live_flows<T>(flows: Map<u64, Flow<T>>, now: u128) -> Map<u64, Flow<T>> {
    Map::new(
        |id: u64| flows.contains_key(id) && !flows[id].spec_idle(now),
        |id: u64| flows[id],
    )
}

/// Whether `id` is a flow that is idle at `now`.
pub open spec fn is_idle_flow<T>(flows: Map<u64, Flow<T>>, now: u128, id: u64) -> bool {
    flows.contains_key(id) && flows[id].spec_idle(now)
}

/// The flow and the payload that a datagram from the client is for: a raw UDP
/// payload on an open flow.
pub open spec fn addressed<T>(flows: Map<u64, Flow<T>>, datagram: Seq<u8>) -> Option<
    (u64, Seq<u8>),
> {
    match dgram::spec_decode(datagram) {
        Some((id, context, payload)) => if context == dgram::CONTEXT_ID_UDP && flows.contains_key(
            id,
        ) {
            Some((id, payload))
        } else {
            None
        },
        None => None,
    }
}

/// The flows of one connection, by flow id.
#[derive(Debug)]
pub struct FlowTable<T> {
    flows: HashMap<u64, Flow<T>>,
}

impl<T> View for FlowTable<T> {
    type V = Map<u64, Flow<T>>;

    closed spec fn view(&self) -> Map<u64, Flow<T>> {
        self.flows@
    }
}

impl<T> FlowTable<T> {
    /// No flow.
    pub fn new() -> (r: Self)
        ensures
            r@ == Map::<u64, Flow<T>>::empty(),
    {
        FlowTable { flows: HashMap::new() }
    }

    /// Open a flow, in place of any with the same id.
    pub fn insert(&mut self, id: u64, flow: Flow<T>)
        ensures
            final(self)@ == old(self)@.insert(id, flow),
    {
        let _ = self.flows.insert(id, flow);
    }

    /// Close a flow and hand it out.
    pub fn remove(&mut self, id: u64) -> (r: Option<Flow<T>>)
        ensures
            final(self)@ == old(self)@.remove(id),
            match r {
                Some(f) => old(self)@.contains_key(id) && f == old(self)@[id],
                None => !old(self)@.contains_key(id),
            },
    {
        self.flows.remove(&id)
    }

    /// Note traffic on a flow.
    pub fn touch(&mut self, id: u64, now: u128)
        ensures
            final(self)@ == touch_flow(old(self)@, id, now),
    {
        match self.flows.remove(&id) {
            Some(f) => {
                let flow = Flow {
                    to_target: f.to_target,
                    last_activity: now,
                    idle_timeout: f.idle_timeout,
                };
                let _ = self.flows.insert(id, flow);
                assert(self@ =~= touch_flow(old(self)@, id, now));
            },
            None => {
                assert(self@ =~= old(self)@);
            },
        }
    }

    /// Close the flows that are idle at `now`. Their ids come back, each once and
    /// in no particular order.
    pub fn sweep(&mut self, now: u128) -> (r: Vec<u64>)
        ensures
            final(self)@ == live_flows(old(self)@, now),
            r@.no_duplicates(),
            forall|id: u64| #[trigger] r@.contains(id) <==> is_idle_flow(old(self)@, now, id),
    {
        let ghost all = self@;
        let mut expired: Vec<u64> = Vec::new();
        let ghost keys = vstd::std_specs::hash::spec_keys_iter(&self.flows).remaining().unref();
        for id in it: self.flows.keys()
            invariant
                all == self.flows@,
                it.seq().no_duplicates(),
                it.seq().unref().to_set() == all.dom(),
                expired@.no_duplicates(),
                forall|k: u64| #[trigger]
                    expired@.contains(k) ==> is_idle_flow(all, now, k) && exists|j: int|
                        0 <= j < it.index() && *(#[trigger] it.seq()[j]) == k,
                forall|j: int|
                    0 <= j < it.index() && is_idle_flow(all, now, *(#[trigger] it.seq()[j]))
                        ==> expired@.contains(*it.seq()[j]),
        {
            let ghost i = it.index();
            let ghost before = expired@;
            assert(it.seq().unref().to_set().contains(it.seq().unref()[i]));
            assert(all.contains_key(*id));
            match self.flows.get(id) {
                Some(f) => {
                    if f.idle(now) {
                        expired.push(*id);
                        proof {
                            assert(expired@.last() == *id);
                            assert(expired@.contains(*id));
                            assert(!before.contains(*id));
                            assert forall|k: u64| #[trigger] expired@.contains(k) implies before
                                .contains(k) || k == *id by {}
                            assert forall|k: u64| before.contains(k) implies expired@.contains(
                                k,
                            ) by {
                                let j = choose|j: int| 0 <= j < before.len() && before[j] == k;
                                assert(expired@[j] == k);
                            }
                        }
                    }
                },
                None => {},
            }
        }
        assert forall|id: u64| is_idle_flow(all, now, id) implies #[trigger] expired@.contains(
            id,
        ) by {
            assert(keys.to_set().contains(id));
        }
        let mut i: usize = 0;
        let ghost gone = expired@;
        while i < expired.len()
            invariant
                i <= expired@.len(),
                expired@ == gone,
                forall|id: u64| #[trigger] gone.contains(id) <==> is_idle_flow(all, now, id),
                forall|id: u64| #[trigger]
                    self@.contains_key(id) <==> all.contains_key(id) && !gone.take(
                        i as int,
                    ).contains(id),
                forall|id: u64| #[trigger] self@.contains_key(id) ==> self@[id] == all[id],
            decreases expired@.len() - i,
        {
            let id: u64 = expired[i];
            let ghost before = self@;
            let _ = self.flows.remove(&id);
            proof {
                let seen = gone.take(i as int);
                assert(self@ =~= before.remove(id));
                assert(gone.take(i + 1) =~= seen.push(id));
                assert forall|k: u64| #[trigger] self@.contains_key(k) <==> all.contains_key(k)
                    && !gone.take(i + 1).contains(k) by {
                    assert(self@.contains_key(k) == (before.contains_key(k) && k != id));
                    assert(seen.push(id).contains(k) == (seen.contains(k) || k == id)) by {
                        if seen.contains(k) {
                            let j = choose|j: int| 0 <= j < seen.len() && seen[j] == k;
                            assert(seen.push(id)[j] == k);
                        }
                        assert(seen.push(id).last() == id);
                    }
                }
                assert forall|k: u64| #[trigger] self@.contains_key(k) implies self@[k]
                    == all[k] by {
                    assert(before.contains_key(k));
                }
            }
            i = i + 1;
        }
        assert(gone.take(i as int) =~= gone);
        assert(self@ =~= live_flows(all, now));
        expired
    }
}

impl<T: Clone> FlowTable<T> {
    /// Take a datagram from the client. Where it carries a raw UDP payload on an
    /// open flow, that is traffic on the flow, and the flow's handle comes back with
    /// the payload to forward; anything else is dropped.
    pub fn deliver(&mut self, datagram: &[u8], now: u128) -> (r: Option<(T, Vec<u8>)>)
        ensures
            match (r, addressed(old(self)@, datagram@)) {
                (Some((to_target, payload)), Some((id, sent))) => {
                    &&& payload@ == sent
                    &&& cloned(old(self)@[id].to_target, to_target)
                    &&& final(self)@ == touch_flow(old(self)@, id, now)
                },
                (None, None) => final(self)@ == old(self)@,
                _ => false,
            },
    {
        let parsed = match dgram::decode(datagram) {
            Some(p) => p,
            None => return None,
        };
        if parsed.context_id != dgram::CONTEXT_ID_UDP {
            return None;
        }
        let to_target = match self.flows.get(&parsed.flow_id) {
            Some(f) => f.to_target.clone(),
            None => return None,
        };
        self.touch(parsed.flow_id, now);
        let payload = copy_of(parsed.payload, 0, parsed.payload.len());
        assert(payload@ =~= parsed.payload@);
        Some((to_target, payload))
    }
}

/// After a sweep no flow is idle, and a flow that was not idle is still there; a
/// second sweep at the same time closes nothing.
pub proof fn lemma_sweep<T>(flows: Map<u64, Flow<T>>, now: u128, id: u64)
    ensures
        !is_idle_flow(live_flows(flows, now), now, id),
        flows.contains_key(id) && !flows[id].spec_idle(now) ==> live_flows(
            flows,
            now,
        ).contains_key(id) && live_flows(flows, now)[id] == flows[id],
        live_flows(live_flows(flows, now), now) == live_flows(flows, now),
{
    assert(live_flows(live_flows(flows, now), now) =~= live_flows(flows, now));
}

/// Traffic keeps a flow open: it survives every sweep until its idle timeout has
/// passed since. Without an idle timeout it survives every sweep.
pub proof fn lemma_traffic_keeps_flow<T>(
    flows: Map<u64, Flow<T>>,
    id: u64,
    now: u128,
    later: u128,
)
    requires
        flows.contains_key(id),
        flows[id].idle_timeout matches Some(d) ==> elapsed(now, later) < d,
    ensures
        live_flows(touch_flow(flows, id, now), later).contains_key(id),
        live_flows(touch_flow(flows, id, now), later)[id] == flows[id].touched(now),
{
}

/// A flow without traffic for its idle timeout is closed by every sweep from then
/// on.
pub proof fn lemma_idle_flow_closed<T>(flows: Map<u64, Flow<T>>, id: u64, now: u128, later: u128)
    requires
        is_idle_flow(flows, now, id),
        now <= later,
    ensures
        !live_flows(flows, later).contains_key(id),
{
}

/// A payload that the client frames for an open flow is delivered on that flow,
/// unchanged.
pub proof fn lemma_payload_delivered<T>(flows: Map<u64, Flow<T>>, id: u64, payload: Seq<u8>)
    requires
        flows.contains_key(id),
        id < varint::VALUE_LIMIT,
    ensures
        addressed(flows, dgram::spec_encode(id, payload)) == Some((id, payload)),
{
    dgram::lemma_roundtrip(id, payload);
}

/// Traffic changes nothing of a flow but its last activity, and nothing of the others:
/// the same flows are open, and this one has the same target and idle timeout.
pub proof fn lemma_traffic_changes_activity_only<T>(
    flows: Map<u64, Flow<T>>,
    id: u64,
    now: u128,
    other: u64,
)
    ensures
        touch_flow(flows, id, now).contains_key(other) <==> flows.contains_key(other),
        flows.contains_key(other) && other != id ==> touch_flow(flows, id, now)[other]
            == flows[other],
        flows.contains_key(id) ==> {
            let f = touch_flow(flows, id, now)[id];
            &&& f.to_target == flows[id].to_target
            &&& f.idle_timeout == flows[id].idle_timeout
            &&& f.last_activity == now
        },
{
}

/// After traffic at `now` on a flow with the idle timeout `d`, a sweep without further
/// traffic closes it exactly if it comes at `now + d` or later.
pub proof fn lemma_closed_when_idle<T>(
    flows: Map<u64, Flow<T>>,
    id: u64,
    d: u128,
    now: u128,
    later: u128,
)
    requires
        flows.contains_key(id),
        flows[id].idle_timeout == Some(d),
        d > 0,
    ensures
        live_flows(touch_flow(flows, id, now), later).contains_key(id) <==> later < now + d,
{
}

/// A sweep closes exactly the flows whose idle timeout has passed since their last
/// activity, and changes no other.
pub proof fn lemma_sweep_closes<T>(flows: Map<u64, Flow<T>>, now: u128, id: u64)
    requires
        flows.contains_key(id),
    ensures
        flows[id].idle_timeout matches Some(d) ==> (d > 0 ==> (live_flows(
            flows,
            now,
        ).contains_key(id) <==> now < flows[id].last_activity + d)),
        flows[id].idle_timeout is None ==> live_flows(flows, now).contains_key(id),
        live_flows(flows, now).contains_key(id) ==> live_flows(flows, now)[id] == flows[id],
        is_idle_flow(flows, now, id) <==> !live_flows(flows, now).contains_key(id),
{
}

/// A sweep opens no flow.
pub proof fn lemma_sweep_opens_none<T>(flows: Map<u64, Flow<T>>, now: u128, id: u64)
    requires
        !flows.contains_key(id),
    ensures
        !live_flows(flows, now).contains_key(id),
        !is_idle_flow(flows, now, id),
{
}

/// A datagram is delivered only on an open flow and only as a raw UDP payload, which
/// has the context 0; then it is delivered unchanged.
pub proof fn lemma_only_udp_delivered<T>(
    flows: Map<u64, Flow<T>>,
    id: u64,
    context: u64,
    payload: Seq<u8>,
)
    requires
        id < 0x4000_0000_0000_0000,
        context < 0x4000_0000_0000_0000,
    ensures
        addressed(flows, varint::spec_encode(id) + varint::spec_encode(context) + payload)
            == if context == 0 && flows.contains_key(id) {
            Some((id, payload))
        } else {
            None
        },
{
    dgram::lemma_any_context(id, context, payload);
}

/// Whatever the form of its numbers, a datagram is delivered exactly if its flow is open
/// and its context is 0.
pub proof fn lemma_delivered_when<T>(flows: Map<u64, Flow<T>>, datagram: Seq<u8>)
    ensures
        match dgram::spec_decode(datagram) {
            Some((id, context, payload)) => addressed(flows, datagram) == if flows.contains_key(id)
                && context == 0 {
                Some((id, payload))
            } else {
                None
            },
            None => addressed(flows, datagram) is None,
        },
{
}

/// A flow without a time to wait is closed by every sweep.
pub proof fn lemma_zero_timeout<T>(flows: Map<u64, Flow<T>>, id: u64, now: u128)
    requires
        flows.contains_key(id),
        flows[id].idle_timeout == Some(0u128),
    ensures
        !live_flows(flows, now).contains_key(id),
{
}

} // verus!
