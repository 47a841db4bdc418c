//! The probe and the local proxy.

use zeromasque::addr::SocketAddr;
use zeromasque::client::dial_plan;
use zeromasque::client::Attempt;
use zeromasque::client::ClientOptions;
use zeromasque::client::Dial;
use zeromasque::client::Probe;
use zeromasque::client::ProbeError;
use zeromasque::dgram;
use zeromasque::quic::Verify;
use zeromasque::request::accept_headers;
use zeromasque::request::status_headers;
use zeromasque::request::ConnectRequest;
use zeromasque::template::Template;
use zeromasque::timer::shorter_wait;
use zeromasque::timer::time_since;
use zeromasque::timer::time_until_due;
use zeromasque::tunnel::AnswerStep;
use zeromasque::tunnel::Backoff;
use zeromasque::tunnel::Keepalive;
use zeromasque::tunnel::LocalStep;
use zeromasque::tunnel::Tunnel;
use zeromasque::tunnel::KEEPALIVE_INTERVAL;

fn options(proxy_addr: Option<SocketAddr>) -> ClientOptions {
    ClientOptions {
        template: Template::parse("https://proxy:4433/masque?h={target_host}&p={target_port}")
            .unwrap(),
        target_host: "192.0.2.1".to_string(),
        target_port: 53,
        proxy_addr,
        verify: Verify::from_args(true, None),
        ech_config_list: None,
        message: b"hi".to_vec(),
        response_window: 100,
    }
}

fn probe() -> Probe {
    Probe::new(&options(None))
}

fn granted() -> Probe {
    let mut p = probe();
    p.on_http3_started();
    p.on_request(Attempt::Sent).unwrap();
    p.on_response(&accept_headers()).unwrap();
    p
}

#[test]
fn probe_asks_for_the_expanded_target() {
    let mut p = probe();
    assert!(p.request().is_none());
    assert!(!p.wants_http3(false, false));
    assert!(p.wants_http3(true, false));
    assert!(p.wants_http3(false, true));
    p.on_http3_started();
    assert!(!p.wants_http3(true, true));
    let r = ConnectRequest::parse(&p.request().unwrap()).unwrap();
    assert_eq!(r.authority, "proxy:4433");
    assert_eq!(r.path, "/masque?h=192.0.2.1&p=53");
    p.on_request(Attempt::Blocked).unwrap();
    assert!(p.request().is_some());
    p.on_request(Attempt::Sent).unwrap();
    assert!(p.request().is_none());
}

#[test]
fn probe_sends_its_message_once_granted() {
    let mut p = granted();
    assert_eq!(p.message(), Some(vec![0, 0, b'h', b'i']));
    p.on_message(Attempt::Blocked, 5).unwrap();
    assert!(p.message().is_some());
    assert!(!p.over(1_000));
    p.on_message(Attempt::Sent, 5).unwrap();
    assert!(p.message().is_none());
    assert!(!p.over(104));
    assert!(p.over(105));
    assert_eq!(p.outcome(), Err(ProbeError::NoResponse));
}

#[test]
fn probe_ends_with_a_response() {
    let mut p = granted();
    p.on_message(Attempt::Sent, 5).unwrap();
    assert_eq!(p.on_datagram(&[0, 1, b'x']), None);
    assert!(!p.over(6));
    assert_eq!(
        p.on_datagram(&dgram::encode(0, b"reply")),
        Some(b"reply".to_vec())
    );
    assert!(p.over(6));
    assert_eq!(p.outcome(), Ok(()));
}

#[test]
fn probe_wakes_at_its_deadline() {
    let mut p = granted();
    assert_eq!(p.wait(None, 3), None);
    assert_eq!(p.wait(Some(9), 3), Some(9));
    p.on_message(Attempt::Sent, 5).unwrap();
    assert_eq!(p.wait(None, 5), Some(100));
    assert_eq!(p.wait(Some(300), 45), Some(60));
    assert_eq!(p.wait(Some(2), 45), Some(2));
    assert_eq!(p.wait(Some(2), 200), Some(0));
}

#[test]
fn an_override_changes_the_address_only() {
    let with = options(Some(A));
    let without = options(None);
    let plan = with.dial();
    assert!(matches!(plan.dial, Dial::Address(addr) if addr == A));
    assert_eq!(plan.server_name, "proxy");
    let plan = without.dial();
    assert!(matches!(plan.dial, Dial::Resolve(name) if name == "proxy:4433"));
    assert_eq!(plan.server_name, "proxy");
    let mut a = Probe::new(&with);
    let mut b = Probe::new(&without);
    a.on_http3_started();
    b.on_http3_started();
    let a = ConnectRequest::parse(&a.request().unwrap()).unwrap();
    let b = ConnectRequest::parse(&b.request().unwrap()).unwrap();
    assert_eq!((a.authority, a.path), (b.authority, b.path));
    let plan = dial_plan("[2001:db8::1]:443", None);
    assert!(matches!(plan.dial, Dial::Resolve(name) if name == "[2001:db8::1]:443"));
    assert_eq!(plan.server_name, "2001:db8::1");
}

#[test]
fn keepalives_go_out_every_second() {
    let mut k = Keepalive::new(10);
    assert_eq!(k.next_wait(None, 10), KEEPALIVE_INTERVAL);
    assert_eq!(k.next_wait(Some(4), 10), 4);
    assert!(!k.due(9 + KEEPALIVE_INTERVAL));
    assert_eq!(k.next_wait(None, 9 + KEEPALIVE_INTERVAL), 1);
    assert!(k.due(15 + KEEPALIVE_INTERVAL));
    assert!(!k.due(16 + KEEPALIVE_INTERVAL));
    assert_eq!(k.next_wait(None, 16 + KEEPALIVE_INTERVAL), KEEPALIVE_INTERVAL - 1);
    assert_eq!(KEEPALIVE_INTERVAL, 1_000_000_000);
}

#[test]
fn times_do_not_run_backwards() {
    assert_eq!(time_since(3, 10), 7);
    assert_eq!(time_since(10, 3), 0);
    assert_eq!(time_until_due(3, 10, 5), 8);
    assert_eq!(time_until_due(3, 10, 13), 0);
    assert_eq!(time_until_due(3, 10, 0), 10);
    assert_eq!(shorter_wait(None, 4), 4);
    assert_eq!(shorter_wait(Some(3), 4), 3);
    assert_eq!(shorter_wait(Some(5), 4), 4);
}

#[test]
fn probe_errors() {
    let mut p = probe();
    assert_eq!(p.outcome(), Ok(()));
    assert_eq!(
        p.on_request(Attempt::Failed),
        Err(ProbeError::RequestFailed)
    );
    assert_eq!(
        p.on_response(&status_headers(404)),
        Err(ProbeError::Rejected { status: 404 })
    );
    assert_eq!(
        p.on_response(&status_headers(199)),
        Err(ProbeError::Rejected { status: 199 })
    );
    assert_eq!(p.on_response(&[]), Err(ProbeError::MissingStatus));
    assert_eq!(p.on_response(&status_headers(299)), Ok(()));
    assert_eq!(
        p.on_message(Attempt::Failed, 0),
        Err(ProbeError::MessageFailed)
    );
}

#[test]
fn verification_follows_the_arguments() {
    assert!(matches!(Verify::from_args(true, None), Verify::Insecure));
    let ca = std::path::PathBuf::from("ca.pem");
    assert!(matches!(
        Verify::from_args(false, Some(ca)),
        Verify::Roots { ca_file: Some(p) } if p == std::path::PathBuf::from("ca.pem")
    ));
}

#[test]
fn redialling_backs_off_to_five_seconds() {
    let mut b = Backoff::new();
    let mut delays = Vec::new();
    for _ in 0..8 {
        delays.push(b.next_delay());
    }
    assert_eq!(
        delays,
        vec![100, 200, 400, 800, 1600, 3200, 5000, 5000]
    );
    b.reset();
    assert_eq!(b.next_delay(), 100);
}

const A: SocketAddr = SocketAddr::V4 { ip: 1, port: 1 };
const B: SocketAddr = SocketAddr::V4 { ip: 1, port: 2 };

#[test]
fn first_datagrams_wait_for_the_answer() {
    let mut t = Tunnel::new();
    assert!(matches!(t.on_local(A, b"1"), LocalStep::Open));
    assert!(t.on_opened(A, 4, b"1"));
    assert!(matches!(t.on_local(A, b"2"), LocalStep::Wait));
    match t.on_answer(4, &accept_headers()) {
        AnswerStep::Granted(ds) => {
            assert_eq!(ds, vec![dgram::encode(1, b"1"), dgram::encode(1, b"2")])
        }
        _ => panic!("not granted"),
    }
    assert!(matches!(
        t.on_local(A, b"3"),
        LocalStep::Send(d) if d == dgram::encode(1, b"3")
    ));
}

#[test]
fn waiting_datagrams_are_bounded() {
    let mut t = Tunnel::new();
    assert!(t.on_opened(A, 0, b"0"));
    for _ in 1..1024 {
        assert!(matches!(t.on_local(A, b"x"), LocalStep::Wait));
    }
    assert!(matches!(t.on_local(A, b"x"), LocalStep::Discard));
}

#[test]
fn replies_go_back_to_their_source() {
    let mut t = Tunnel::new();
    assert!(t.on_opened(A, 0, b"a"));
    assert!(t.on_opened(B, 4, b"b"));
    assert_eq!(
        t.on_proxy_datagram(&dgram::encode(1, b"r")),
        Some((B, b"r".to_vec()))
    );
    assert_eq!(
        t.on_proxy_datagram(&dgram::encode(0, b"s")),
        Some((A, b"s".to_vec()))
    );
    assert_eq!(t.on_proxy_datagram(&dgram::encode(2, b"s")), None);
    assert_eq!(t.on_proxy_datagram(&[0, 7, 1]), None);
    assert_eq!(t.on_proxy_datagram(&[]), None);
}

#[test]
fn one_flow_per_source_and_stream() {
    let mut t = Tunnel::new();
    assert!(t.on_opened(A, 0, b"a"));
    assert!(!t.on_opened(A, 4, b"a"));
    assert!(!t.on_opened(B, 0, b"b"));
}

#[test]
fn ended_flows_reopen_lazily() {
    let mut t = Tunnel::new();
    assert!(t.on_opened(A, 0, b"a"));
    assert!(matches!(
        t.on_answer(0, &status_headers(404)),
        AnswerStep::Refused
    ));
    assert!(matches!(t.on_local(A, b"a"), LocalStep::Open));
    assert!(t.on_opened(A, 4, b"a"));
    t.on_stream_closed(4);
    t.on_stream_closed(8);
    assert!(matches!(t.on_local(A, b"a"), LocalStep::Open));
    assert!(matches!(
        t.on_answer(4, &accept_headers()),
        AnswerStep::Unknown
    ));
}
