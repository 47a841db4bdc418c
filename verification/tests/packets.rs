//! Batches of packets, and small helpers.

use zeromasque::addr::SocketAddr;
use zeromasque::batch::after_send;
use zeromasque::batch::plain_packets;
use zeromasque::batch::recv_capacity;
use zeromasque::batch::send_packets;
use zeromasque::batch::split_segments;
use zeromasque::batch::Burst;
use zeromasque::batch::Flush;
use zeromasque::batch::RecvLoop;
use zeromasque::batch::RecvOutcome;
use zeromasque::batch::RecvStep;
use zeromasque::batch::SendBatch;
use zeromasque::batch::SendOutcome;
use zeromasque::batch::SendPlan;
use zeromasque::batch::SendStep;
use zeromasque::quic::MAX_DATAGRAM_SIZE;
use zeromasque::quic::MAX_UDP_PAYLOAD;
use zeromasque::quic::SOCKET_BUFFER_BYTES;
use zeromasque::util::hex;
use zeromasque::util::log_level;
use zeromasque::util::payload_line;
use zeromasque::util::LogLevel;

const A: SocketAddr = SocketAddr::V4 { ip: 1, port: 1 };
const B: SocketAddr = SocketAddr::V4 { ip: 2, port: 1 };

fn packet(len: usize, mark: u8) -> Vec<u8> {
    vec![mark; len]
}

#[test]
fn batches_take_compatible_packets() {
    let mut b = SendBatch::new();
    assert_eq!(b.try_push(packet(3, 1), A), None);
    assert_eq!(b.segment_size, 3);
    assert_eq!(b.try_push(packet(3, 2), A), None);
    assert_eq!(b.try_push(packet(3, 3), B), Some(packet(3, 3)));
    assert_eq!(b.try_push(packet(4, 3), A), Some(packet(4, 3)));
    assert!(!b.ends_with_short_segment());
    assert_eq!(b.try_push(packet(2, 4), A), None);
    assert!(b.ends_with_short_segment());
    let burst = b.take().unwrap();
    assert_eq!(burst.to, A);
    assert_eq!(burst.segment_size, 3);
    assert_eq!(
        burst.packets,
        vec![packet(3, 1), packet(3, 2), packet(2, 4)]
    );
    assert!(b.take().is_none());
    assert_eq!(b.segment_size, 0);
}

#[test]
fn flushing_sends_bursts_in_order() {
    let mut f = Flush::new();
    assert_eq!(f.on_packet(packet(3, 1), A).len(), 0);
    assert_eq!(f.on_packet(packet(3, 2), A).len(), 0);
    let first = f.on_packet(packet(3, 3), B);
    assert_eq!(first.len(), 1);
    assert_eq!(first[0].packets, vec![packet(3, 1), packet(3, 2)]);
    let second = f.on_packet(packet(1, 4), B);
    assert_eq!(second.len(), 1);
    assert_eq!(second[0].to, B);
    assert_eq!(second[0].packets, vec![packet(3, 3), packet(1, 4)]);
    assert!(f.finish().is_none());
    assert_eq!(f.on_packet(packet(5, 5), A).len(), 0);
    assert_eq!(f.finish().unwrap().packets, vec![packet(5, 5)]);
}

#[test]
fn a_round_of_packets_is_sent() {
    let mut f = Flush::new();
    for i in 0..31 {
        assert_eq!(f.on_packet(packet(9, i), A).len(), 0);
    }
    let bursts = f.on_packet(packet(9, 31), A);
    assert_eq!(bursts.len(), 1);
    assert_eq!(bursts[0].packets.len(), 32);
    assert!(f.finish().is_none());
}

#[test]
fn bursts_are_joined_where_the_system_can_segment() {
    let burst = Burst {
        to: A,
        segment_size: 3,
        packets: vec![packet(3, 1), packet(3, 2), packet(2, 3)],
    };
    match send_packets(&burst, true) {
        SendPlan::Segmented {
            payload,
            segment_size,
        } => {
            assert_eq!(payload, vec![1, 1, 1, 2, 2, 2, 3, 3]);
            assert_eq!(segment_size, 3);
            // Splitting gives the packets back.
            assert_eq!(split_segments(&payload, Some(3)), burst.packets);
        }
        SendPlan::Plain(_) => panic!("not segmented"),
    }
    assert!(matches!(
        send_packets(&burst, false),
        SendPlan::Plain(p) if p == burst.packets
    ));
    assert_eq!(plain_packets(&burst), burst.packets);
    let single = Burst {
        to: A,
        segment_size: 3,
        packets: vec![packet(3, 1)],
    };
    assert!(matches!(
        send_packets(&single, true),
        SendPlan::Plain(p) if p == single.packets
    ));
}

#[test]
fn sends_are_retried_or_fall_back() {
    assert_eq!(after_send(true, SendOutcome::Sent), SendStep::Done);
    assert_eq!(after_send(true, SendOutcome::WouldBlock), SendStep::Retry);
    assert_eq!(
        after_send(true, SendOutcome::SegmentsUnsupported),
        SendStep::FallBack
    );
    assert_eq!(
        after_send(false, SendOutcome::SegmentsUnsupported),
        SendStep::Fail
    );
    assert_eq!(after_send(true, SendOutcome::Failed), SendStep::Fail);
}

#[test]
fn reads_come_in_batches() {
    let mut r = RecvLoop::new();
    assert_eq!(r.after_read(RecvOutcome::WouldBlock), RecvStep::AwaitReadable);
    assert_eq!(r.after_read(RecvOutcome::Interrupted), RecvStep::Again);
    for _ in 0..30 {
        assert_eq!(r.after_read(RecvOutcome::Received), RecvStep::Again);
    }
    assert_eq!(r.after_read(RecvOutcome::Received), RecvStep::AwaitReadable);
    assert_eq!(r.after_read(RecvOutcome::Received), RecvStep::Again);
    assert_eq!(r.after_read(RecvOutcome::Failed), RecvStep::Stop);
}

#[test]
fn merged_reads_are_split() {
    assert_eq!(
        split_segments(&[1, 2, 3, 4, 5], Some(2)),
        vec![vec![1, 2], vec![3, 4], vec![5]]
    );
    assert_eq!(split_segments(&[1, 2], Some(2)), vec![vec![1, 2]]);
    assert_eq!(split_segments(&[1, 2], Some(0)), vec![vec![1, 2]]);
    assert_eq!(split_segments(&[1, 2], None), vec![vec![1, 2]]);
    assert_eq!(split_segments(&[], Some(2)), vec![Vec::<u8>::new()]);
}

#[test]
fn read_buffers_hold_a_batch() {
    assert_eq!(recv_capacity(1400), 44_800);
    assert_eq!(recv_capacity(2047), 65_504);
    assert_eq!(recv_capacity(2048), 65_535);
    assert_eq!(recv_capacity(100_000), 100_000);
    assert_eq!(recv_capacity(usize::MAX), usize::MAX);
    assert_eq!(recv_capacity(0), 0);
}

#[test]
fn output_buffers_hold_the_largest_payload() {
    assert!(MAX_DATAGRAM_SIZE >= MAX_UDP_PAYLOAD);
    assert_eq!(MAX_UDP_PAYLOAD, 1400);
    assert_eq!(SOCKET_BUFFER_BYTES, 8 * 1024 * 1024);
}

#[test]
fn hex_is_lower_case() {
    assert_eq!(hex(&[0x00, 0xab, 0x9f]), "00ab9f");
    assert_eq!(hex(&[]), "");
}

#[test]
fn payload_lines_show_text_or_bytes() {
    assert_eq!(payload_line(b"hello world"), "recv 11 bytes: hello world");
    assert_eq!(payload_line(b""), "recv 0 bytes: ");
    let odd: Vec<u8> = vec![0xff, 0x0a, 0x41];
    assert_eq!(
        payload_line(&odd),
        format!("recv {} bytes (binary): {:02x?}", odd.len(), odd)
    );
    assert_eq!(payload_line(&[0x80]), "recv 1 bytes (binary): [80]");
}

#[test]
fn log_levels() {
    assert_eq!(log_level(None), LogLevel::Info);
    assert_eq!(log_level(Some("off")), LogLevel::Off);
    assert_eq!(log_level(Some("error")), LogLevel::Error);
    assert_eq!(log_level(Some("warn")), LogLevel::Warn);
    assert_eq!(log_level(Some("info")), LogLevel::Info);
    assert_eq!(log_level(Some("debug")), LogLevel::Debug);
    assert_eq!(log_level(Some("trace")), LogLevel::Trace);
    assert_eq!(log_level(Some("DEBUG")), LogLevel::Info);
}
