//! The transport parameters, the server names a proxy answers to, and how a client
//! verifies its proxy.

use std::path::PathBuf;
use vstd::prelude::*;

use crate::dgram::lemma_prefix_len;
use crate::dgram::spec_encode;
use crate::text::chars_of;
use crate::text::equal_ignoring_ascii_case;
use crate::text::lemma_equal_up_to_case;
use crate::text::same_ignoring_ascii_case;
use crate::text::texts;

verus! {

/// `std::path::PathBuf`, of which nothing is stated.
#[verifier::external_type_specification]
#[verifier::external_body]
pub struct ExPathBuf(PathBuf);

/// Outer (client to proxy) QUIC packet size ceiling. Sized so that a full 1280-MTU
/// inner datagram survives the trip: inside WireGuard it is a 1312-byte UDP
/// payload, plus the two-byte HTTP-datagram prefix it is 1314 bytes that must fit
/// in one QUIC DATAGRAM frame, which cannot be fragmented.
pub const MAX_UDP_PAYLOAD: usize = 1400;

/// Output buffer size for outbound packets. It must be at least
/// [`MAX_UDP_PAYLOAD`]: a datagram is admitted to the send queue by that ceiling,
/// and one that never fits the buffer would block every datagram behind it.
pub const MAX_DATAGRAM_SIZE: usize = MAX_UDP_PAYLOAD;

/// Idle timeout of a connection in milliseconds.
pub const IDLE_TIMEOUT_MS: u64 = 10_000;

/// Length of the queues for datagrams in each direction.
pub const DGRAM_QUEUE_LEN: usize = 65536;

/// Size requested, in each direction, for the kernel buffers of a UDP socket.
pub const SOCKET_BUFFER_BYTES: i32 = 8_388_608;

pub const INITIAL_MAX_DATA: u64 = 10_000_000;

pub const INITIAL_MAX_STREAM_DATA: u64 = 2_000_000;

pub const INITIAL_MAX_STREAMS: u64 = 128;

/// How the client verifies the proxy's certificate.
#[derive(Debug)]
pub enum Verify {
    /// Verify against the system trust store plus an optional extra CA file.
    Roots { ca_file: Option<PathBuf> },
    /// Skip verification (testing only).
    Insecure,
}

impl Verify {
    /// The verification that the command line asks for: skipping it wins over an
    /// extra CA file.
    pub fn from_args(insecure: bool, ca: Option<PathBuf>) -> (r: Verify)
        ensures
            r == if insecure {
                Verify::Insecure
            } else {
                Verify::Roots { ca_file: ca }
            },
    {
        if insecure {
            Verify::Insecure
        } else {
            Verify::Roots { ca_file: ca }
        }
    }
}

/// Whether a server name is one of the hosts, up to the case of ASCII letters.
pub open spec fn is_allowed(hosts: Seq<Seq<char>>, name: Seq<char>) -> bool {
    exists|i: int| 0 <= i < hosts.len() && #[trigger] equal_ignoring_ascii_case(hosts[i], name)
}

/// Whether a handshake may go on: the ClientHello must name one of the configured
/// proxy endpoint hosts. Without a name it is rejected.
pub fn sni_allowed(allowed_hosts: &[String], sni: Option<&str>) -> (r: bool)
    ensures
        r == match sni {
            Some(name) => is_allowed(texts(allowed_hosts@), name@),
            None => false,
        },
{
    let name = match sni {
        Some(name) => chars_of(name),
        None => return false,
    };
    let ghost hosts = texts(allowed_hosts@);
    let mut i: usize = 0;
    while i < allowed_hosts.len()
        invariant
            i <= allowed_hosts@.len(),
            hosts == texts(allowed_hosts@),
            sni matches Some(n) && n@ == name@,
            forall|k: int| 0 <= k < i ==> !#[trigger] equal_ignoring_ascii_case(hosts[k], name@),
        decreases allowed_hosts@.len() - i,
    {
        let host = chars_of(&allowed_hosts[i]);
        assert(hosts[i as int] == host@);
        if same_ignoring_ascii_case(&host, &name) {
            assert(equal_ignoring_ascii_case(hosts[i as int], name@));
            return true;
        }
        i = i + 1;
    }
    false
}

/// A server name is allowed exactly if one of the hosts is of the same length and has at
/// each place the same character, or the same ASCII letter in the other case.
pub proof fn lemma_allowed(hosts: Seq<Seq<char>>, name: Seq<char>)
    ensures
        is_allowed(hosts, name) <==> exists|k: int|
            0 <= k < hosts.len() && (#[trigger] hosts[k]).len() == name.len() && forall|i: int|
                0 <= i < name.len() ==> {
                    ||| hosts[k][i] == #[trigger] name[i]
                    ||| 'A' <= hosts[k][i] <= 'Z' && name[i] as int == hosts[k][i] as int + 32
                    ||| 'A' <= name[i] <= 'Z' && hosts[k][i] as int == name[i] as int + 32
                },
{
    if is_allowed(hosts, name) {
        let k = choose|k: int|
            0 <= k < hosts.len() && #[trigger] equal_ignoring_ascii_case(hosts[k], name);
        lemma_equal_up_to_case(hosts[k], name);
        let h = hosts[k];
        assert forall|i: int| 0 <= i < name.len() implies {
            ||| h[i] == #[trigger] name[i]
            ||| 'A' <= h[i] <= 'Z' && name[i] as int == h[i] as int + 32
            ||| 'A' <= name[i] <= 'Z' && h[i] as int == name[i] as int + 32
        } by {
            assert(h[i] == h[i]);
        }
        assert(hosts[k].len() == name.len());
    }
    if exists|k: int|
        0 <= k < hosts.len() && (#[trigger] hosts[k]).len() == name.len() && forall|i: int|
            0 <= i < name.len() ==> {
                ||| hosts[k][i] == #[trigger] name[i]
                ||| 'A' <= hosts[k][i] <= 'Z' && name[i] as int == hosts[k][i] as int + 32
                ||| 'A' <= name[i] <= 'Z' && hosts[k][i] as int == name[i] as int + 32
            } {
        let k = choose|k: int|
            0 <= k < hosts.len() && (#[trigger] hosts[k]).len() == name.len() && forall|i: int|
                0 <= i < name.len() ==> {
                    ||| hosts[k][i] == #[trigger] name[i]
                    ||| 'A' <= hosts[k][i] <= 'Z' && name[i] as int == hosts[k][i] as int + 32
                    ||| 'A' <= name[i] <= 'Z' && hosts[k][i] as int == name[i] as int + 32
                };
        lemma_equal_up_to_case(hosts[k], name);
        let h = hosts[k];
        assert forall|i: int| 0 <= i < h.len() implies {
            ||| #[trigger] h[i] == name[i]
            ||| 'A' <= h[i] <= 'Z' && name[i] as int == h[i] as int + 32
            ||| 'A' <= name[i] <= 'Z' && h[i] as int == name[i] as int + 32
        } by {
            assert(name[i] == name[i]);
        }
        assert(equal_ignoring_ascii_case(hosts[k], name));
    }
}

/// A datagram with the payload of an inner packet of 1280 bytes inside WireGuard, which is
/// 1312 bytes, fits the outer packets, and no packet is larger than the buffer for it.
pub proof fn lemma_inner_packets_fit(flow_id: u64, payload: Seq<u8>)
    requires
        flow_id < 64,
        payload.len() <= 1312,
    ensures
        spec_encode(flow_id, payload).len() <= 1314,
        spec_encode(flow_id, payload).len() + 80 <= MAX_UDP_PAYLOAD,
        MAX_UDP_PAYLOAD <= MAX_DATAGRAM_SIZE,
{
    lemma_prefix_len(flow_id, payload);
}

} // verus!
