//! The decisions of the proxy.

use zeromasque::addr::SocketAddr;
use zeromasque::addr::TargetPlan;
use zeromasque::client;
use zeromasque::dgram;
use zeromasque::relay::Relay;
use zeromasque::relay::RelayEvent;
use zeromasque::relay::RelayStep;
use zeromasque::reload::ReloadPaths;
use zeromasque::reload::ServerConfig;
use zeromasque::request::accept_headers;
use zeromasque::request::connect_headers;
use zeromasque::request::status_headers;
use zeromasque::request::status_of;
use zeromasque::request::ConnectRequest;
use zeromasque::request::Header;
use zeromasque::rules::RuleSpec;
use zeromasque::rules::RuleTable;
use zeromasque::server::after_bind;
use zeromasque::server::flow_id_of;
use zeromasque::server::fresh_conn_id;
use zeromasque::server::handle_connect_request;
use zeromasque::server::min_timeout;
use zeromasque::server::session_step;
use zeromasque::server::sweep_due;
use zeromasque::server::ConnectDecision;
use zeromasque::server::PacketStep;
use zeromasque::server::Server;
use zeromasque::server::SessionStep;
use zeromasque::server::StreamEvent;
use zeromasque::server::StreamStep;
use zeromasque::server::FLOW_SWEEP_INTERVAL;

const PEER: SocketAddr = SocketAddr::V4 {
    ip: 0xc000_0201,
    port: 4000,
};
const MOVED: SocketAddr = SocketAddr::V4 {
    ip: 0xc000_0201,
    port: 4001,
};
const TARGET: SocketAddr = SocketAddr::V4 {
    ip: 0x7f00_0001,
    port: 53,
};

fn table(transparent: bool) -> RuleTable {
    RuleTable::load(&[RuleSpec {
        endpoint: "https://proxy:4433/connect/s3cret-9f2c".to_string(),
        target: Some(TARGET),
        transparent,
        fwmark: None,
        idle_timeout: Some(2),
    }])
    .unwrap()
}

fn pairs(headers: &[Header]) -> Vec<(Vec<u8>, Vec<u8>)> {
    headers
        .iter()
        .map(|h| (h.name.clone(), h.value.clone()))
        .collect()
}

fn field(name: &str, value: &str) -> Header {
    Header::new(name.as_bytes(), value.as_bytes())
}

fn connected() -> Server<u32> {
    let mut s: Server<u32> = Server::new(0);
    s.accept(b"dcid", b"scid", PEER);
    s
}

#[test]
fn request_headers_are_exact_and_parse() {
    let h = connect_headers("proxy:4433", "/connect");
    assert_eq!(
        pairs(&h),
        vec![
            (b":method".to_vec(), b"CONNECT".to_vec()),
            (b":protocol".to_vec(), b"connect-udp".to_vec()),
            (b":scheme".to_vec(), b"https".to_vec()),
            (b":authority".to_vec(), b"proxy:4433".to_vec()),
            (b":path".to_vec(), b"/connect".to_vec()),
            (b"capsule-protocol".to_vec(), b"?1".to_vec()),
        ]
    );
    let r = ConnectRequest::parse(&h).unwrap();
    assert_eq!(r.authority, "proxy:4433");
    assert_eq!(r.path, "/connect");
}

#[test]
fn invalid_requests_get_their_status() {
    assert_eq!(ConnectRequest::parse(&[]).err(), Some(405));
    let mut h = vec![field(":method", "GET")];
    assert_eq!(ConnectRequest::parse(&h).err(), Some(405));
    h.push(field(":method", "CONNECT"));
    assert_eq!(ConnectRequest::parse(&h).err(), Some(501));
    h.push(field(":protocol", "connect-udp"));
    assert_eq!(ConnectRequest::parse(&h).err(), Some(400));
    h.push(field(":authority", "a"));
    assert_eq!(ConnectRequest::parse(&h).err(), Some(400));
    h.push(Header::new(b":path", &[0xff]));
    assert_eq!(ConnectRequest::parse(&h).err(), Some(400));
    h.push(field(":path", "/x"));
    assert_eq!(ConnectRequest::parse(&h).unwrap().path, "/x");
    h.push(Header::new(b":authority", &[0xc0]));
    assert_eq!(ConnectRequest::parse(&h).err(), Some(400));
}

#[test]
fn the_last_of_repeated_pseudo_headers_counts() {
    let mut h = connect_headers("a", "/x");
    h.push(field(":path", "/y"));
    assert_eq!(ConnectRequest::parse(&h).unwrap().path, "/y");
}

#[test]
fn answers_are_exact_and_read_back() {
    assert_eq!(
        pairs(&status_headers(404)),
        vec![(b":status".to_vec(), b"404".to_vec())]
    );
    assert_eq!(
        pairs(&accept_headers()),
        vec![
            (b":status".to_vec(), b"200".to_vec()),
            (b"capsule-protocol".to_vec(), b"?1".to_vec()),
        ]
    );
    assert_eq!(status_of(&status_headers(502)), Some(502));
    assert_eq!(status_of(&accept_headers()), Some(200));
    assert_eq!(status_of(&[]), None);
    assert_eq!(status_of(&[field(":status", "2x0")]), None);
    assert_eq!(
        status_of(&[field(":status", "204"), field(":status", "500")]),
        Some(204)
    );
}

#[test]
fn requests_are_decided_by_the_rules() {
    let rules = table(false);
    let ok = connect_headers("proxy:4433", "/connect/s3cret-9f2c?h=1.2.3.4&p=5");
    let decision = handle_connect_request(&ok, &rules, PEER, true);
    let rule = rules
        .match_target("proxy:4433", "/connect/s3cret-9f2c")
        .unwrap();
    assert_eq!(rule.target, TARGET);
    assert_eq!(
        decision,
        ConnectDecision::Open {
            rule,
            plan: TargetPlan::Ordinary {
                bind: SocketAddr::V4 { ip: 0, port: 0 },
                fwmark: None
            }
        }
    );
    let other = connect_headers("proxy:4433", "/connect");
    assert_eq!(
        handle_connect_request(&other, &rules, PEER, true),
        ConnectDecision::Refuse { status: 404 }
    );
    assert_eq!(
        handle_connect_request(&[], &rules, PEER, true),
        ConnectDecision::Refuse { status: 405 }
    );
    assert_eq!(
        handle_connect_request(&ok, &table(true), PEER, false),
        ConnectDecision::Refuse { status: 502 }
    );
}

#[test]
fn packets_find_their_connection() {
    let mut s = connected();
    assert!(matches!(
        s.on_packet(b"dcid", true, true, MOVED),
        PacketStep::Deliver(k) if k == b"scid"
    ));
    assert_eq!(s.peer_of(b"scid"), Some(MOVED));
    assert!(matches!(
        s.on_packet(b"scid", false, false, PEER),
        PacketStep::Deliver(k) if k == b"scid"
    ));
    assert_eq!(s.peer_of(b"scid"), Some(PEER));
    assert_eq!(s.peer_of(b"dcid"), None);
}

#[test]
fn unknown_packets_open_connections_or_not() {
    let mut s = connected();
    assert!(matches!(
        s.on_packet(b"new", false, true, PEER),
        PacketStep::Discard
    ));
    assert!(matches!(
        s.on_packet(b"new", true, false, PEER),
        PacketStep::NegotiateVersion
    ));
    assert!(matches!(
        s.on_packet(b"new", true, true, PEER),
        PacketStep::Accept
    ));
}

#[test]
fn reaped_connections_are_forgotten() {
    let mut s = connected();
    s.accept(b"dcid2", b"scid2", PEER);
    s.reap_closed(&[b"scid".to_vec(), b"absent".to_vec()]);
    assert_eq!(s.peer_of(b"scid"), None);
    assert!(matches!(
        s.on_packet(b"dcid", false, true, PEER),
        PacketStep::Discard
    ));
    assert!(matches!(
        s.on_packet(b"dcid2", false, true, PEER),
        PacketStep::Deliver(k) if k == b"scid2"
    ));
}

#[test]
fn datagrams_pass_on_open_flows_only() {
    let mut s = connected();
    assert!(s.on_client_datagram(b"scid", &dgram::encode(2, b"x"), 1).is_none());
    let headers = s.open_flow(b"scid", 8, 77, None, 0).unwrap();
    assert_eq!(status_of(&headers), Some(200));
    assert_eq!(
        s.on_client_datagram(b"scid", &dgram::encode(2, b"x"), 1),
        Some((77, b"x".to_vec()))
    );
    // Another context, a truncated datagram, another connection.
    assert!(s.on_client_datagram(b"scid", &[2, 1, b'x'], 1).is_none());
    assert!(s.on_client_datagram(b"scid", &[0x40], 1).is_none());
    assert!(s
        .on_client_datagram(b"other", &dgram::encode(2, b"x"), 1)
        .is_none());
    assert!(s.open_flow(b"other", 8, 77, None, 0).is_none());
}

#[test]
fn replies_are_framed_for_the_client() {
    let mut s = connected();
    assert_eq!(
        s.on_target_payload(b"scid", 2, b"reply", 0),
        Some(vec![2, 0, b'r', b'e', b'p', b'l', b'y'])
    );
    assert_eq!(s.on_target_payload(b"gone", 2, b"reply", 0), None);
}

#[test]
fn streams_end_their_flows() {
    let mut s = connected();
    s.open_flow(b"scid", 0, 1, None, 0);
    s.open_flow(b"scid", 4, 2, None, 0);
    s.open_flow(b"scid", 8, 3, None, 0);
    assert_eq!(
        s.on_stream_event(b"scid", 0, StreamEvent::Headers),
        StreamStep::Request
    );
    assert_eq!(
        s.on_stream_event(b"scid", 0, StreamEvent::Data),
        StreamStep::DrainBody
    );
    assert_eq!(
        s.on_stream_event(b"scid", 0, StreamEvent::Other),
        StreamStep::Ignore
    );
    assert_eq!(
        s.on_stream_event(b"scid", 0, StreamEvent::Finished),
        StreamStep::FlowClosed
    );
    assert_eq!(
        s.on_stream_event(b"scid", 4, StreamEvent::Reset),
        StreamStep::FlowClosed
    );
    assert!(s.on_client_datagram(b"scid", &dgram::encode(0, b"x"), 1).is_none());
    assert!(s.on_client_datagram(b"scid", &dgram::encode(1, b"x"), 1).is_none());
    assert!(s.on_client_datagram(b"scid", &dgram::encode(2, b"x"), 1).is_some());
    s.close_flow(b"scid", 8);
    assert!(s.on_client_datagram(b"scid", &dgram::encode(2, b"x"), 1).is_none());
}

#[test]
fn idle_flows_are_swept() {
    let mut s = connected();
    s.open_flow(b"scid", 0, 1, Some(10), 100);
    s.open_flow(b"scid", 4, 2, Some(10), 100);
    s.open_flow(b"scid", 8, 3, None, 100);
    s.open_flow(b"scid", 12, 4, Some(10), 100);
    // Traffic in either direction keeps a flow.
    assert!(s.on_client_datagram(b"scid", &dgram::encode(1, b"x"), 105).is_some());
    assert!(s.on_target_payload(b"scid", 3, b"y", 105).is_some());
    assert_eq!(s.sweep_idle_flows(109).len(), 0);
    let closed = s.sweep_idle_flows(110);
    assert_eq!(closed.len(), 1);
    assert_eq!(closed[0].conn_id, b"scid".to_vec());
    assert_eq!(closed[0].stream_id, 0);
    assert_eq!(s.sweep_idle_flows(110).len(), 0);
    let mut later: Vec<u64> = s
        .sweep_idle_flows(1_000)
        .iter()
        .map(|c| c.stream_id)
        .collect();
    later.sort();
    assert_eq!(later, vec![4, 12]);
    assert!(s.on_client_datagram(b"scid", &dgram::encode(2, b"x"), 2_000).is_some());
    assert!(s.on_client_datagram(b"scid", &dgram::encode(1, b"x"), 2_000).is_none());
}

#[test]
fn a_busy_loop_still_sweeps() {
    let second = FLOW_SWEEP_INTERVAL;
    let mut s = connected();
    s.open_flow(b"scid", 0, 1, Some(10), 0);
    s.open_flow(b"scid", 4, 2, None, 0);
    // A pass every tenth of a second, each woken by traffic on another flow.
    let mut closed = Vec::new();
    for pass in 1..=10u128 {
        let now = pass * second / 10;
        assert!(s.on_target_payload(b"scid", 1, b"x", now).is_some());
        for flow in s.sweep_if_due(now) {
            closed.push((now, flow.stream_id));
        }
    }
    assert_eq!(closed, vec![(second, 0)]);
    assert_eq!(s.sweep_if_due(second + 1).len(), 0);
}

#[test]
fn the_loop_waits_for_the_timer_or_the_sweep() {
    let second = FLOW_SWEEP_INTERVAL;
    let mut s: Server<u32> = Server::new(100);
    assert_eq!(s.next_wait(None, 100), second);
    assert_eq!(s.next_wait(None, 150), second - 50);
    assert_eq!(s.next_wait(Some(7), 150), 7);
    assert_eq!(s.next_wait(Some(2 * second), 150), second - 50);
    assert_eq!(s.next_wait(Some(7), 100 + second), 0);
    assert_eq!(s.sweep_if_due(99 + second).len(), 0);
    assert_eq!(s.next_wait(None, 99 + second), 1);
    s.sweep_if_due(100 + second);
    assert_eq!(s.next_wait(None, 100 + second), second);
    assert!(!sweep_due(100, 99 + second));
    assert!(sweep_due(100, 100 + second));
}

#[test]
fn a_target_that_cannot_be_bound_is_a_bad_gateway() {
    let h = connect_headers("proxy:4433", "/connect/s3cret-9f2c");
    let open = handle_connect_request(&h, &table(false), PEER, true);
    assert!(matches!(
        after_bind(open, true),
        ConnectDecision::Open { rule, .. } if rule.target == TARGET
    ));
    let open = handle_connect_request(&h, &table(false), PEER, true);
    assert!(matches!(
        after_bind(open, false),
        ConnectDecision::Refuse { status: 502 }
    ));
    assert!(matches!(
        after_bind(ConnectDecision::Refuse { status: 404 }, false),
        ConnectDecision::Refuse { status: 404 }
    ));
}

#[test]
fn flow_ids_are_quarter_stream_ids() {
    assert_eq!(flow_id_of(0), 0);
    assert_eq!(flow_id_of(4), 1);
    assert_eq!(flow_id_of(40), 10);
}

#[test]
fn reload_paths_are_copied() {
    let paths = ReloadPaths {
        cert: "cert.pem".into(),
        key: "key.pem".into(),
        ech_key: Some("ech".into()),
        rules: "rules.json".into(),
    };
    let copy = paths.clone();
    assert_eq!(copy.cert, paths.cert);
    assert_eq!(copy.key, paths.key);
    assert_eq!(copy.ech_key, paths.ech_key);
    assert_eq!(copy.rules, paths.rules);
}

#[test]
fn requests_wait_for_the_handshake() {
    assert_eq!(session_step(false, false, false), SessionStep::Wait);
    assert_eq!(session_step(false, false, true), SessionStep::Wait);
    assert_eq!(session_step(true, false, false), SessionStep::StartHttp3);
    assert_eq!(session_step(false, true, true), SessionStep::Serve);
}

#[test]
fn the_earliest_timer_is_found() {
    assert_eq!(min_timeout(&[]), None);
    assert_eq!(min_timeout(&[None, None]), None);
    assert_eq!(min_timeout(&[Some(5), None, Some(3), Some(4)]), Some(3));
}

#[test]
fn issued_connection_ids_are_random() {
    let a = fresh_conn_id();
    let b = fresh_conn_id();
    assert_eq!(a.len(), 16);
    assert_ne!(a, vec![0u8; 16]);
    assert_ne!(a, b);
    assert_eq!(client::fresh_conn_id().len(), 20);
}

#[test]
fn a_failed_reload_keeps_the_configuration() {
    let mut c = ServerConfig {
        config: 1,
        rules: table(false),
    };
    assert_eq!(c.reload::<&str>(Err("half-written")), Some("half-written"));
    assert_eq!(c.config, 1);
    assert_eq!(c.rules.transparent_count(), 0);
    let new = ServerConfig {
        config: 2,
        rules: table(true),
    };
    assert_eq!(c.reload::<&str>(Ok(new)), None);
    assert_eq!(c.config, 2);
    assert_eq!(c.rules.transparent_count(), 1);
}

#[test]
fn relays_pass_payloads_on() {
    let r = Relay {
        conn_id: b"scid".to_vec(),
        flow_id: 3,
    };
    assert!(matches!(
        r.step(RelayEvent::FromClient(b"x".to_vec())),
        RelayStep::SendToTarget(p) if p == b"x"
    ));
    assert!(matches!(
        r.step(RelayEvent::FromTarget(b"y".to_vec())),
        RelayStep::SendToClient(m)
            if m.conn_id == b"scid" && m.flow_id == 3 && m.payload == b"y"
    ));
    assert!(matches!(r.step(RelayEvent::FlowClosed), RelayStep::Stop));
    assert!(matches!(r.step(RelayEvent::TargetFailed), RelayStep::Stop));
    assert!(Relay::goes_on(true, true));
    assert!(Relay::goes_on(false, false));
    assert!(!Relay::goes_on(false, true));
}
