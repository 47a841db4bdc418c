//! CONNECT-UDP HTTP/3 datagram framing (RFC 9297 and RFC 9298).
//!
//! ```text
//! Quarter-Stream-ID (varint) | Context-ID (varint) | UDP payload
//! ```
//!
//! The quarter-stream-id is the id of the request stream divided by 4. Context-ID
//! `0` denotes a raw UDP payload; other contexts are reserved and dropped.

use vstd::prelude::*;
use vstd::slice::slice_subrange;

use crate::bytes::push_all;
use crate::varint;

verus! {

/// The context of raw UDP payloads.
pub const CONTEXT_ID_UDP: u64 = 0;

/// The datagram that carries `payload` for `flow_id`.
pub open spec fn spec_encode(flow_id: u64, payload: Seq<u8>) -> Seq<u8> {
    varint::spec_encode(flow_id) + varint::spec_encode(CONTEXT_ID_UDP) + payload
}

/// The flow id, the context id and the payload of a datagram.
pub open spec fn spec_decode(buf: Seq<u8>) -> Option<(u64, u64, Seq<u8>)> {
    match varint::spec_decode(buf) {
        None => None,
        Some((flow_id, n1)) => match varint::spec_decode(buf.skip(n1 as int)) {
            None => None,
            Some((context_id, n2)) => Some((flow_id, context_id, buf.skip(n1 + n2))),
        },
    }
}

/// Encode a UDP payload as a CONNECT-UDP HTTP datagram for `flow_id`.
pub fn encode(flow_id: u64, udp_payload: &[u8]) -> (out: Vec<u8>)
    ensures
        out@ == spec_encode(flow_id, udp_payload@),
{
    let mut out: Vec<u8> = Vec::new();
    varint::encode(flow_id, &mut out);
    varint::encode(CONTEXT_ID_UDP, &mut out);
    push_all(&mut out, udp_payload);
    assert(out@ =~= spec_encode(flow_id, udp_payload@));
    out
}

/// Parsed view of a received HTTP datagram.
pub struct Parsed<'a> {
    pub flow_id: u64,
    pub context_id: u64,
    pub payload: &'a [u8],
}

/// Decode the flow id, context id and remaining UDP payload from a datagram.
pub fn decode(buf: &[u8]) -> (r: Option<Parsed<'_>>)
    ensures
        match r {
            Some(p) => spec_decode(buf@) == Some((p.flow_id, p.context_id, p.payload@)),
            None => spec_decode(buf@) is None,
        },
{
    let (flow_id, n1) = match varint::decode(buf) {
        Some(d) => d,
        None => return None,
    };
    let rest = slice_subrange(buf, n1, buf.len());
    assert(rest@ =~= buf@.skip(n1 as int));
    let (context_id, n2) = match varint::decode(rest) {
        Some(d) => d,
        None => return None,
    };
    let payload = slice_subrange(rest, n2, rest.len());
    assert(payload@ =~= buf@.skip(n1 + n2));
    Some(Parsed { flow_id, context_id, payload })
}

/// Decoding what was encoded gives the flow id, the context of raw UDP payloads
/// and the payload.
pub proof fn lemma_roundtrip(flow_id: u64, payload: Seq<u8>)
    requires
        flow_id < varint::VALUE_LIMIT,
    ensures
        spec_decode(spec_encode(flow_id, payload)) == Some((flow_id, CONTEXT_ID_UDP, payload)),
{
    let a = varint::spec_encode(flow_id);
    let b = varint::spec_encode(CONTEXT_ID_UDP);
    let d = spec_encode(flow_id, payload);
    varint::lemma_encode_len(flow_id);
    varint::lemma_encode_len(CONTEXT_ID_UDP);
    varint::lemma_roundtrip(flow_id, b + payload);
    varint::lemma_roundtrip(CONTEXT_ID_UDP, payload);
    assert(d =~= a + (b + payload));
    assert(d.skip(a.len() as int) =~= b + payload);
    assert(d.skip((a.len() + b.len()) as int) =~= payload);
}

/// The framing of a payload takes as many bytes as the flow id does, and one more;
/// for the first 64 flows that is two.
pub proof fn lemma_prefix_len(flow_id: u64, payload: Seq<u8>)
    ensures
        spec_encode(flow_id, payload).len() == varint::spec_encoded_len(flow_id) + 1
            + payload.len(),
        flow_id < 64 ==> spec_encode(flow_id, payload).len() == payload.len() + 2,
{
    varint::lemma_encode_len(flow_id);
    varint::lemma_encode_len(CONTEXT_ID_UDP);
}

/// A datagram of any context is decoded into its two ids and what follows them.
pub proof fn lemma_any_context(flow_id: u64, context_id: u64, payload: Seq<u8>)
    requires
        flow_id < 0x4000_0000_0000_0000,
        context_id < 0x4000_0000_0000_0000,
    ensures
        spec_decode(varint::spec_encode(flow_id) + varint::spec_encode(context_id) + payload)
            == Some((flow_id, context_id, payload)),
{
    let a = varint::spec_encode(flow_id);
    let b = varint::spec_encode(context_id);
    let d = a + b + payload;
    varint::lemma_encode_len(flow_id);
    varint::lemma_encode_len(context_id);
    varint::lemma_roundtrip(flow_id, b + payload);
    varint::lemma_roundtrip(context_id, payload);
    assert(d =~= a + (b + payload));
    assert(d.skip(a.len() as int) =~= b + payload);
    assert(d.skip((a.len() + b.len()) as int) =~= payload);
}

/// The datagram for one of the first 64 flows, byte by byte: the flow id, a zero for
/// raw UDP, and the payload.
pub proof fn lemma_datagram_bytes(flow_id: u64, payload: Seq<u8>)
    requires
        flow_id < 64,
    ensures
        spec_encode(flow_id, payload) == seq![flow_id as u8, 0u8] + payload,
        spec_decode(seq![flow_id as u8, 0u8] + payload) == Some((flow_id, 0u64, payload)),
{
    varint::lemma_bytes_written_out(flow_id);
    varint::lemma_bytes_written_out(0);
    lemma_roundtrip(flow_id, payload);
    assert(spec_encode(flow_id, payload) =~= seq![flow_id as u8, 0u8] + payload);
}

/// Whatever a datagram is decoded into stands in it: a number, another number, and the
/// rest, which is the payload. Without two complete numbers it is not decoded.
pub proof fn lemma_decoded_parts(buf: Seq<u8>)
    ensures
        match spec_decode(buf) {
            Some((flow_id, context_id, payload)) => exists|n: int, m: int|
                {
                    &&& 0 < n < m <= buf.len()
                    &&& payload == #[trigger] buf.skip(m)
                    &&& varint::spec_decode(buf) == Some((flow_id, n as usize))
                    &&& varint::spec_decode(#[trigger] buf.skip(n)) == Some(
                        (context_id, (m - n) as usize),
                    )
                },
            None => match varint::spec_decode(buf) {
                Some((_, n)) => varint::spec_decode(buf.skip(n as int)) is None,
                None => true,
            },
        },
{
    if let Some((flow_id, n)) = varint::spec_decode(buf) {
        if let Some((context_id, k)) = varint::spec_decode(buf.skip(n as int)) {
            assert(spec_decode(buf) == Some((flow_id, context_id, buf.skip(n + k))));
            assert(varint::spec_decode(buf.skip(n as int)) == Some(
                (context_id, (n + k - n) as usize),
            ));
        }
    }
}

} // verus!
