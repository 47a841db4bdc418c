//! Internet socket addresses, and how the socket towards a target is bound.

use vstd::prelude::*;

use crate::bytes::be_value;
use crate::bytes::read_be;

verus! {

/// An IP address, as the number that its bytes write in network order.
#[derive(Clone, Copy, Debug, PartialEq, Eq, Structural)]
pub enum IpAddr {
    V4(u32),
    V6(u128),
}

/// An internet socket address.
#[allow(inconsistent_fields)]
#[derive(Clone, Copy, Debug, PartialEq, Eq, Structural)]
pub enum SocketAddr {
    V4 { ip: u32, port: u16 },
    V6 { ip: u128, port: u16, flowinfo: u32, scope_id: u32 },
}

/// Whether `ip` is an IPv4-mapped IPv6 address (`::ffff:a.b.c.d`).
pub open spec fn is_mapped(ip: u128) -> bool {
    ip / 0x1_0000_0000 == 0xffff
}

impl IpAddr {
    pub open spec fn spec_canonical(self) -> IpAddr {
        match self {
            IpAddr::V4(_) => self,
            IpAddr::V6(ip) => if is_mapped(ip) {
                IpAddr::V4((ip % 0x1_0000_0000) as u32)
            } else {
                self
            },
        }
    }

    /// The address itself, or the IPv4 address that it maps.
    pub fn to_canonical(self) -> (r: IpAddr)
        ensures
            r == self.spec_canonical(),
    {
        match self {
            IpAddr::V4(_) => self,
            IpAddr::V6(ip) => {
                if ip / 0x1_0000_0000 == 0xffff {
                    IpAddr::V4((ip % 0x1_0000_0000) as u32)
                } else {
                    self
                }
            },
        }
    }

    /// Whether this is an IPv4 address.
    pub fn is_ipv4(self) -> (r: bool)
        ensures
            r == (self is V4),
    {
        match self {
            IpAddr::V4(_) => true,
            IpAddr::V6(_) => false,
        }
    }
}

impl SocketAddr {
    pub open spec fn spec_new(ip: IpAddr, port: u16) -> SocketAddr {
        match ip {
            IpAddr::V4(ip) => SocketAddr::V4 { ip, port },
            IpAddr::V6(ip) => SocketAddr::V6 { ip, port, flowinfo: 0, scope_id: 0 },
        }
    }

    pub open spec fn spec_ip(self) -> IpAddr {
        match self {
            SocketAddr::V4 { ip, port: _ } => IpAddr::V4(ip),
            SocketAddr::V6 { ip, port: _, flowinfo: _, scope_id: _ } => IpAddr::V6(ip),
        }
    }

    pub open spec fn spec_port(self) -> u16 {
        match self {
            SocketAddr::V4 { ip: _, port } => port,
            SocketAddr::V6 { ip: _, port, flowinfo: _, scope_id: _ } => port,
        }
    }

    /// The socket address of `ip` and `port`.
    pub fn new(ip: IpAddr, port: u16) -> (r: SocketAddr)
        ensures
            r == Self::spec_new(ip, port),
    {
        match ip {
            IpAddr::V4(ip) => SocketAddr::V4 { ip, port },
            IpAddr::V6(ip) => SocketAddr::V6 { ip, port, flowinfo: 0, scope_id: 0 },
        }
    }

    /// The IP address.
    pub fn ip(self) -> (r: IpAddr)
        ensures
            r == self.spec_ip(),
    {
        match self {
            SocketAddr::V4 { ip, port: _ } => IpAddr::V4(ip),
            SocketAddr::V6 { ip, port: _, flowinfo: _, scope_id: _ } => IpAddr::V6(ip),
        }
    }

    /// The port.
    pub fn port(self) -> (r: u16)
        ensures
            r == self.spec_port(),
    {
        match self {
            SocketAddr::V4 { ip: _, port } => port,
            SocketAddr::V6 { ip: _, port, flowinfo: _, scope_id: _ } => port,
        }
    }

    /// Whether this is an IPv4 socket address.
    pub fn is_ipv4(self) -> (r: bool)
        ensures
            r == (self is V4),
    {
        match self {
            SocketAddr::V4 { ip: _, port: _ } => true,
            SocketAddr::V6 { ip: _, port: _, flowinfo: _, scope_id: _ } => false,
        }
    }
}

/// The address family of a peer address, with the number of one that is neither.
#[derive(Clone, Copy, Debug, PartialEq, Eq, Structural)]
pub enum Family {
    Inet,
    Inet6,
    Other(i32),
}

/// The socket address in the fields of a received peer address. `ip` and `port`
/// are in network order. On another family, its number comes back.
pub fn socket_addr_from_storage(
    family: Family,
    ip: &[u8; 16],
    port: &[u8; 2],
    flowinfo: u32,
    scope_id: u32,
) -> (r: Result<SocketAddr, i32>)
    ensures
        match family {
            Family::Inet => r == Ok::<_, i32>(
                SocketAddr::V4 {
                    ip: be_value(ip@.take(4)) as u32,
                    port: be_value(port@) as u16,
                },
            ),
            Family::Inet6 => r == Ok::<_, i32>(
                SocketAddr::V6 {
                    ip: be_value(ip@) as u128,
                    port: be_value(port@) as u16,
                    flowinfo,
                    scope_id,
                },
            ),
            Family::Other(n) => r == Err::<SocketAddr, _>(n),
        },
{
    let p: u16 = read_be(port, 0, 2) as u16;
    assert(port@.subrange(0, 2) =~= port@);
    match family {
        Family::Inet => {
            let a: u32 = read_be(ip, 0, 4) as u32;
            assert(ip@.subrange(0, 4) =~= ip@.take(4));
            Ok(SocketAddr::V4 { ip: a, port: p })
        },
        Family::Inet6 => {
            let a: u128 = read_be16(ip);
            Ok(SocketAddr::V6 { ip: a, port: p, flowinfo, scope_id })
        },
        Family::Other(n) => Err(n),
    }
}

fn read_be16(ip: &[u8; 16]) -> (r: u128)
    ensures
        r == be_value(ip@),
{
    let mut r: u128 = 0;
    let mut i: usize = 0;
    assert(ip@.take(0) =~= Seq::empty());
    proof {
        assert(crate::bytes::byte_values(16) == 0x1_0000_0000_0000_0000_0000_0000_0000_0000)
            by {
            reveal_with_fuel(crate::bytes::byte_values, 17);
        }
    }
    while i < 16
        invariant
            i <= 16,
            r == be_value(ip@.take(i as int)),
            crate::bytes::byte_values(16) == 0x1_0000_0000_0000_0000_0000_0000_0000_0000,
        decreases 16 - i,
    {
        proof {
            let s = ip@.take(i + 1);
            assert(s.drop_last() =~= ip@.take(i as int));
            crate::bytes::lemma_be_value_bytes(s);
            lemma_byte_values_grow((i + 1) as nat, 16);
        }
        r = r * 256 + ip[i] as u128;
        i = i + 1;
    }
    assert(ip@.take(16) =~= ip@);
    r
}

proof fn lemma_byte_values_grow(a: nat, b: nat)
    requires
        a <= b,
    ensures
        crate::bytes::byte_values(a) <= crate::bytes::byte_values(b),
    decreases b,
{
    if a < b {
        lemma_byte_values_grow(a, (b - 1) as nat);
    }
}

/// The wildcard address of the same family, with an ephemeral port.
pub open spec fn wildcard(like: SocketAddr) -> SocketAddr {
    if like is V4 {
        SocketAddr::V4 { ip: 0, port: 0 }
    } else {
        SocketAddr::V6 { ip: 0, port: 0, flowinfo: 0, scope_id: 0 }
    }
}

/// The address to bind a socket to that talks to `peer`: any local address of
/// the peer's family, and an ephemeral port.
pub fn bind_addr_for(peer: SocketAddr) -> (r: SocketAddr)
    ensures
        r == wildcard(peer),
{
    if peer.is_ipv4() {
        SocketAddr::V4 { ip: 0, port: 0 }
    } else {
        SocketAddr::V6 { ip: 0, port: 0, flowinfo: 0, scope_id: 0 }
    }
}

/// How to open the socket that relays one flow to its target.
#[derive(Clone, Copy, Debug, PartialEq, Eq, Structural)]
pub enum TargetPlan {
    /// An ordinary socket, bound to `bind`.
    Ordinary { bind: SocketAddr, fwmark: Option<u32> },
    /// A transparent socket, bound to `exact`; if that address is in use, to
    /// `ephemeral`.
    Transparent { is_v6: bool, exact: SocketAddr, ephemeral: SocketAddr, fwmark: Option<u32> },
}

/// Why no socket towards a target can be opened.
#[derive(Clone, Copy, Debug, PartialEq, Eq, Structural)]
pub enum TargetError {
    /// Transparent forwarding is supported on Linux only.
    TransparentUnsupported,
    /// A fwmark is supported on Linux only.
    FwmarkUnsupported,
    /// The address families of client and target differ.
    FamiliesDiffer,
}

/// The plan for transparent forwarding from `client_addr`.
pub open spec fn spec_transparent(
    target: SocketAddr,
    client_addr: SocketAddr,
    fwmark: Option<u32>,
    linux: bool,
) -> Result<TargetPlan, TargetError> {
    let src_ip = client_addr.spec_ip().spec_canonical();
    if !linux {
        Err(TargetError::TransparentUnsupported)
    } else if (src_ip is V4) != (target is V4) {
        Err(TargetError::FamiliesDiffer)
    } else {
        Ok(
            TargetPlan::Transparent {
                is_v6: !(target is V4),
                exact: SocketAddr::spec_new(src_ip, client_addr.spec_port()),
                ephemeral: SocketAddr::spec_new(src_ip, 0),
                fwmark,
            },
        )
    }
}

/// The plan for the socket towards `target`.
pub open spec fn spec_target_plan(
    target: SocketAddr,
    client_addr: SocketAddr,
    transparent: bool,
    fwmark: Option<u32>,
    linux: bool,
) -> Result<TargetPlan, TargetError> {
    if transparent {
        spec_transparent(target, client_addr, fwmark, linux)
    } else if fwmark is Some && !linux {
        Err(TargetError::FwmarkUnsupported)
    } else {
        Ok(TargetPlan::Ordinary { bind: wildcard(target), fwmark })
    }
}

/// Transparent forwarding: send to `target` with the client's external source IP
/// preserved. An IPv4-mapped client address counts as IPv4. The client's exact
/// `ip:port` comes first, an ephemeral port on that IP second, since a client
/// multiplexes many flows over one QUIC address.
pub fn bind_target_transparent(
    target: SocketAddr,
    client_addr: SocketAddr,
    fwmark: Option<u32>,
    linux: bool,
) -> (r: Result<TargetPlan, TargetError>)
    ensures
        r == spec_transparent(target, client_addr, fwmark, linux),
{
    if !linux {
        return Err(TargetError::TransparentUnsupported);
    }
    let src_ip = client_addr.ip().to_canonical();
    let is_v6 = match (src_ip.is_ipv4(), target.is_ipv4()) {
        (true, true) => false,
        (false, false) => true,
        _ => return Err(TargetError::FamiliesDiffer),
    };
    Ok(
        TargetPlan::Transparent {
            is_v6,
            exact: SocketAddr::new(src_ip, client_addr.port()),
            ephemeral: SocketAddr::new(src_ip, 0),
            fwmark,
        },
    )
}

/// Plan the UDP socket that relays one flow to its target. In transparent mode it
/// forwards with the client's external source IP preserved; otherwise it uses an
/// ephemeral local source. `fwmark` is for policy routing. `linux` says whether
/// the system has these two.
pub fn bind_target(
    target: SocketAddr,
    client_addr: SocketAddr,
    transparent: bool,
    fwmark: Option<u32>,
    linux: bool,
) -> (r: Result<TargetPlan, TargetError>)
    ensures
        r == spec_target_plan(target, client_addr, transparent, fwmark, linux),
{
    if transparent {
        return bind_target_transparent(target, client_addr, fwmark, linux);
    }
    if fwmark.is_some() && !linux {
        return Err(TargetError::FwmarkUnsupported);
    }
    Ok(TargetPlan::Ordinary { bind: bind_addr_for(target), fwmark })
}

/// What an attempt to open a socket on some source address gave.
#[derive(Clone, Copy, Debug, PartialEq, Eq, Structural)]
pub enum BindOutcome {
    Bound,
    AddrInUse,
    Failed,
}

/// What to do after an attempt.
#[derive(Clone, Copy, Debug, PartialEq, Eq, Structural)]
pub enum BindStep {
    /// The socket is open.
    Done,
    /// Try again on this address.
    Retry(SocketAddr),
    /// Give up.
    Fail,
}

impl TargetPlan {
    /// The source address of the first attempt.
    pub open spec fn spec_first(self) -> SocketAddr {
        match self {
            TargetPlan::Ordinary { bind, fwmark: _ } => bind,
            TargetPlan::Transparent { is_v6: _, exact, ephemeral: _, fwmark: _ } => exact,
        }
    }

    /// The source address of the second attempt, if there is one.
    pub open spec fn spec_second(self) -> Option<SocketAddr> {
        match self {
            TargetPlan::Ordinary { bind: _, fwmark: _ } => None,
            TargetPlan::Transparent { is_v6: _, exact: _, ephemeral, fwmark: _ } => Some(
                ephemeral,
            ),
        }
    }

    /// The source address of the first attempt.
    pub fn first(&self) -> (r: SocketAddr)
        ensures
            r == self.spec_first(),
    {
        match *self {
            TargetPlan::Ordinary { bind, fwmark: _ } => bind,
            TargetPlan::Transparent { is_v6: _, exact, ephemeral: _, fwmark: _ } => exact,
        }
    }

    /// What to do after an attempt: an address in use at the first attempt on a
    /// transparent socket is answered with a second attempt, any other failure ends
    /// the matter.
    pub fn after_attempt(&self, first: bool, outcome: BindOutcome) -> (r: BindStep)
        ensures
            r == match outcome {
                BindOutcome::Bound => BindStep::Done,
                BindOutcome::AddrInUse => if first && self.spec_second() is Some {
                    BindStep::Retry(self.spec_second()->0)
                } else {
                    BindStep::Fail
                },
                BindOutcome::Failed => BindStep::Fail,
            },
    {
        match outcome {
            BindOutcome::Bound => BindStep::Done,
            BindOutcome::Failed => BindStep::Fail,
            BindOutcome::AddrInUse => {
                if !first {
                    return BindStep::Fail;
                }
                match *self {
                    TargetPlan::Ordinary { bind: _, fwmark: _ } => BindStep::Fail,
                    TargetPlan::Transparent { is_v6: _, exact: _, ephemeral, fwmark: _ } => {
                        BindStep::Retry(ephemeral)
                    },
                }
            },
        }
    }
}

/// Every source address of a plan has the family of the target, and a transparent
/// plan keeps the client's address at both attempts.
pub proof fn lemma_plan_sources(
    target: SocketAddr,
    client_addr: SocketAddr,
    transparent: bool,
    fwmark: Option<u32>,
    linux: bool,
)
    ensures
        spec_target_plan(target, client_addr, transparent, fwmark, linux) matches Ok(plan) ==> {
            &&& (plan.spec_first() is V4) == (target is V4)
            &&& transparent ==> plan.spec_first().spec_ip()
                == client_addr.spec_ip().spec_canonical()
            &&& transparent ==> plan.spec_first().spec_port() == client_addr.spec_port()
            &&& plan.spec_second() is Some <==> transparent
            &&& plan.spec_second() matches Some(second) ==> {
                &&& (second is V4) == (target is V4)
                &&& second.spec_ip() == client_addr.spec_ip().spec_canonical()
                &&& second.spec_port() == 0
            }
        },
{
}

/// How the socket towards a target is opened, case by case. Without transparent forwarding
/// it is bound to any address of the target's family, at an ephemeral port. With it, it is
/// bound to the client's own address and port, and if these are taken to the client's
/// address at an ephemeral port; an IPv4 client address in its IPv6 form is the IPv4
/// address. A fwmark is passed on. What only Linux has is refused elsewhere, and so is
/// transparent forwarding between two address families.
pub proof fn lemma_plan_written_out(
    target: SocketAddr,
    client: SocketAddr,
    fwmark: Option<u32>,
    linux: bool,
)
    ensures
        spec_target_plan(target, client, false, fwmark, linux) == if fwmark is Some && !linux {
            Err::<TargetPlan, _>(TargetError::FwmarkUnsupported)
        } else {
            Ok(
                TargetPlan::Ordinary {
                    bind: match target {
                        SocketAddr::V4 { .. } => SocketAddr::V4 { ip: 0, port: 0 },
                        SocketAddr::V6 { .. } => SocketAddr::V6 {
                            ip: 0,
                            port: 0,
                            flowinfo: 0,
                            scope_id: 0,
                        },
                    },
                    fwmark,
                },
            )
        },
        !linux ==> spec_target_plan(target, client, true, fwmark, linux) == Err::<TargetPlan, _>(
            TargetError::TransparentUnsupported,
        ),
        linux ==> match client {
            SocketAddr::V4 { ip, port } => spec_target_plan(target, client, true, fwmark, linux)
                == match target {
                SocketAddr::V4 { .. } => Ok::<_, TargetError>(
                    TargetPlan::Transparent {
                        is_v6: false,
                        exact: SocketAddr::V4 { ip, port },
                        ephemeral: SocketAddr::V4 { ip, port: 0 },
                        fwmark,
                    },
                ),
                SocketAddr::V6 { .. } => Err(TargetError::FamiliesDiffer),
            },
            SocketAddr::V6 { ip, port, .. } => if 0xffff_0000_0000 <= ip <= 0xffff_ffff_ffff {
                spec_target_plan(target, client, true, fwmark, linux) == spec_target_plan(
                    target,
                    SocketAddr::V4 { ip: (ip - 0xffff_0000_0000) as u32, port },
                    true,
                    fwmark,
                    linux,
                )
            } else {
                spec_target_plan(target, client, true, fwmark, linux) == match target {
                    SocketAddr::V4 { .. } => Err::<TargetPlan, _>(TargetError::FamiliesDiffer),
                    SocketAddr::V6 { .. } => Ok(
                        TargetPlan::Transparent {
                            is_v6: true,
                            exact: SocketAddr::V6 { ip, port, flowinfo: 0, scope_id: 0 },
                            ephemeral: SocketAddr::V6 { ip, port: 0, flowinfo: 0, scope_id: 0 },
                            fwmark,
                        },
                    ),
                }
            },
        },
{
}

/// The attempts of a plan: one on the wildcard address, or one on the client's address and
/// port and then one on its address alone.
pub proof fn lemma_attempts(plan: TargetPlan)
    ensures
        match plan {
            TargetPlan::Ordinary { bind, .. } => plan.spec_first() == bind
                && plan.spec_second() is None,
            TargetPlan::Transparent { exact, ephemeral, .. } => plan.spec_first() == exact
                && plan.spec_second() == Some(ephemeral),
        },
{
}

/// Taking an address apart and putting it together again gives its address and port back.
pub proof fn lemma_address_parts(ip: IpAddr, port: u16)
    ensures
        SocketAddr::spec_new(ip, port).spec_ip() == ip,
        SocketAddr::spec_new(ip, port).spec_port() == port,
        ip matches IpAddr::V4(a) ==> SocketAddr::spec_new(ip, port) == (SocketAddr::V4 {
            ip: a,
            port,
        }),
        ip matches IpAddr::V6(a) ==> SocketAddr::spec_new(ip, port) == (SocketAddr::V6 {
            ip: a,
            port,
            flowinfo: 0,
            scope_id: 0,
        }),
{
}

/// An IPv4 address in its IPv6 form stands for the IPv4 address, and every other address
/// for itself.
pub proof fn lemma_canonical(a: u32, ip: u128)
    ensures
        IpAddr::V6((0xffff_0000_0000 + a) as u128).spec_canonical() == IpAddr::V4(a),
        IpAddr::V4(a).spec_canonical() == IpAddr::V4(a),
        ip < 0xffff_0000_0000 || ip > 0xffff_ffff_ffff ==> IpAddr::V6(ip).spec_canonical()
            == IpAddr::V6(ip),
{
}

} // verus!
