//! The relay between one flow and its target socket.

use vstd::prelude::*;

use crate::bytes::copy_of;

verus! {

/// A UDP payload received from a target, on its way back to a proxy client.
#[derive(Debug)]
pub struct ToClient {
    pub conn_id: Vec<u8>,
    pub flow_id: u64,
    pub payload: Vec<u8>,
}

/// What happened at a relay.
#[derive(Debug)]
pub enum RelayEvent {
    /// The client sent a payload.
    FromClient(Vec<u8>),
    /// The flow was closed.
    FlowClosed,
    /// The target sent a payload.
    FromTarget(Vec<u8>),
    /// The target socket cannot be read any more.
    TargetFailed,
}

/// What a relay does.
#[derive(Debug)]
pub enum RelayStep {
    SendToTarget(Vec<u8>),
    SendToClient(ToClient),
    /// Close the target socket.
    Stop,
}

/// The relay of one flow.
#[derive(Debug)]
pub struct Relay {
    pub conn_id: Vec<u8>,
    pub flow_id: u64,
}

impl Relay {
    /// What to do about an event: payloads pass in both directions unchanged, those
    /// from the target under the ids of the flow.
    pub fn step(&self, event: RelayEvent) -> (r: RelayStep)
        ensures
            match event {
                RelayEvent::FromClient(payload) => r == RelayStep::SendToTarget(payload),
                RelayEvent::FromTarget(payload) => r matches RelayStep::SendToClient(m) && {
                    &&& m.conn_id@ == self.conn_id@
                    &&& m.flow_id == self.flow_id
                    &&& m.payload == payload
                },
                RelayEvent::FlowClosed | RelayEvent::TargetFailed => r == RelayStep::Stop,
            },
    {
        match event {
            RelayEvent::FromClient(payload) => RelayStep::SendToTarget(payload),
            RelayEvent::FromTarget(payload) => {
                let conn_id = copy_of(&self.conn_id, 0, self.conn_id.len());
                assert(conn_id@ =~= self.conn_id@);
                RelayStep::SendToClient(ToClient { conn_id, flow_id: self.flow_id, payload })
            },
            RelayEvent::FlowClosed => RelayStep::Stop,
            RelayEvent::TargetFailed => RelayStep::Stop,
        }
    }

    /// Whether to go on after a payload was handed to the proxy: one that finds the
    /// queue full is dropped, but without the proxy the relay ends.
    pub fn goes_on(queued: bool, proxy_gone: bool) -> (r: bool)
        ensures
            r == (queued || !proxy_gone),
    {
        queued || !proxy_gone
    }
}

} // verus!
