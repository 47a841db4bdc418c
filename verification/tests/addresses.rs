//! Addresses and the plan for target sockets.

use zeromasque::addr::bind_addr_for;
use zeromasque::addr::bind_target;
use zeromasque::addr::socket_addr_from_storage;
use zeromasque::addr::BindOutcome;
use zeromasque::addr::BindStep;
use zeromasque::addr::Family;
use zeromasque::addr::IpAddr;
use zeromasque::addr::SocketAddr;
use zeromasque::addr::TargetError;
use zeromasque::addr::TargetPlan;

const TARGET: SocketAddr = SocketAddr::V4 {
    ip: 0x7f00_0001,
    port: 53,
};

fn v6(ip: u128, port: u16) -> SocketAddr {
    SocketAddr::V6 {
        ip,
        port,
        flowinfo: 0,
        scope_id: 0,
    }
}

#[test]
fn mapped_addresses_are_canonicalised() {
    assert_eq!(
        IpAddr::V6(0xffff_c000_0201).to_canonical(),
        IpAddr::V4(0xc000_0201)
    );
    assert_eq!(IpAddr::V6(1).to_canonical(), IpAddr::V6(1));
    assert_eq!(IpAddr::V4(7).to_canonical(), IpAddr::V4(7));
}

#[test]
fn peer_addresses_are_read() {
    let mut ip = [0u8; 16];
    ip[0] = 192;
    ip[3] = 1;
    assert_eq!(
        socket_addr_from_storage(Family::Inet, &ip, &[0x11, 0x51], 1, 2),
        Ok(SocketAddr::V4 {
            ip: 0xc000_0001,
            port: 4433
        })
    );
    ip[15] = 5;
    assert_eq!(
        socket_addr_from_storage(Family::Inet6, &ip, &[0, 53], 1, 2),
        Ok(SocketAddr::V6 {
            ip: 0xc000_0001_0000_0000_0000_0000_0000_0005,
            port: 53,
            flowinfo: 1,
            scope_id: 2
        })
    );
    assert_eq!(
        socket_addr_from_storage(Family::Other(1), &ip, &[0, 53], 1, 2),
        Err(1)
    );
}

#[test]
fn ordinary_sockets_use_an_ephemeral_source() {
    assert_eq!(
        bind_target(TARGET, v6(1, 9), false, None, false),
        Ok(TargetPlan::Ordinary {
            bind: SocketAddr::V4 { ip: 0, port: 0 },
            fwmark: None
        })
    );
    assert_eq!(bind_addr_for(v6(1, 9)), v6(0, 0));
    assert_eq!(
        bind_target(TARGET, v6(1, 9), false, Some(3), false),
        Err(TargetError::FwmarkUnsupported)
    );
}

#[test]
fn transparent_sockets_keep_the_client_address() {
    let client = v6(0xffff_c000_0201, 4000);
    let plan = bind_target(TARGET, client, true, Some(100), true).unwrap();
    let exact = SocketAddr::V4 {
        ip: 0xc000_0201,
        port: 4000,
    };
    let ephemeral = SocketAddr::V4 {
        ip: 0xc000_0201,
        port: 0,
    };
    assert_eq!(
        plan,
        TargetPlan::Transparent {
            is_v6: false,
            exact,
            ephemeral,
            fwmark: Some(100)
        }
    );
    assert_eq!(plan.first(), exact);
    assert_eq!(
        plan.after_attempt(true, BindOutcome::AddrInUse),
        BindStep::Retry(ephemeral)
    );
    assert_eq!(
        plan.after_attempt(false, BindOutcome::AddrInUse),
        BindStep::Fail
    );
    assert_eq!(
        plan.after_attempt(true, BindOutcome::Failed),
        BindStep::Fail
    );
    assert_eq!(plan.after_attempt(true, BindOutcome::Bound), BindStep::Done);
}

#[test]
fn transparent_sockets_need_linux_and_one_family() {
    assert_eq!(
        bind_target(TARGET, v6(1, 9), true, None, true),
        Err(TargetError::FamiliesDiffer)
    );
    assert_eq!(
        bind_target(TARGET, TARGET, true, None, false),
        Err(TargetError::TransparentUnsupported)
    );
}

#[test]
fn an_ordinary_socket_is_not_retried() {
    let plan = bind_target(TARGET, TARGET, false, None, true).unwrap();
    assert_eq!(
        plan.after_attempt(true, BindOutcome::AddrInUse),
        BindStep::Fail
    );
}
