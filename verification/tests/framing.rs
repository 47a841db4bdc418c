//! QUIC variable-length integers and HTTP/3 datagrams.

use zeromasque::bytes;
use zeromasque::dgram;
use zeromasque::dgram::CONTEXT_ID_UDP;
use zeromasque::varint::decode;
use zeromasque::varint::encode;
use zeromasque::varint::encoded_len;

#[test]
fn roundtrip_boundaries() {
    for v in [
        0u64,
        63,
        64,
        16383,
        16384,
        1_073_741_823,
        1_073_741_824,
        u64::MAX >> 2,
    ] {
        let mut out = Vec::new();
        encode(v, &mut out);
        assert_eq!(out.len(), encoded_len(v));
        let (decoded, n) = decode(&out).unwrap();
        assert_eq!(decoded, v);
        assert_eq!(n, out.len());
    }
}

#[test]
fn decode_short_buffer_is_none() {
    // A 4-byte varint header with only 2 bytes present.
    assert!(decode(&[0x80, 0x00]).is_none());
    assert!(decode(&[]).is_none());
}

#[test]
fn known_vectors() {
    // RFC 9000 A.1 sample: 0x25 -> 37, two-byte 0x7bbd -> 15293.
    assert_eq!(decode(&[0x25]).unwrap().0, 37);
    assert_eq!(decode(&[0x7b, 0xbd]).unwrap().0, 15293);
}

#[test]
fn encoded_bytes_are_exact() {
    let mut out = vec![0xffu8];
    encode(15293, &mut out);
    assert_eq!(out, vec![0xff, 0x7b, 0xbd]);
    let mut four = Vec::new();
    encode(494_878_333, &mut four);
    assert_eq!(four, vec![0x9d, 0x7f, 0x3e, 0x7d]);
    let mut eight = Vec::new();
    encode(151_288_809_941_952_652, &mut eight);
    assert_eq!(eight, vec![0xc2, 0x19, 0x7c, 0x5e, 0xff, 0x14, 0xe8, 0x8c]);
}

#[test]
fn decoding_leaves_the_rest_alone() {
    assert_eq!(decode(&[0x40, 0x25, 9, 9]), Some((37, 2)));
}

#[test]
fn encode_decode_roundtrip() {
    let d = dgram::encode(0, b"hello");
    let p = dgram::decode(&d).unwrap();
    assert_eq!(p.flow_id, 0);
    assert_eq!(p.context_id, CONTEXT_ID_UDP);
    assert_eq!(p.payload, b"hello");
}

#[test]
fn nonzero_flow_and_context() {
    let d = dgram::encode(7, b"x");
    let p = dgram::decode(&d).unwrap();
    assert_eq!(p.flow_id, 7);
    // context id is always 0 (UDP) in what we encode
    assert_eq!(p.context_id, 0);
    assert_eq!(p.payload, b"x");
}

#[test]
fn datagram_bytes_and_prefix_are_exact() {
    assert_eq!(dgram::encode(7, b"ab"), vec![7, 0, b'a', b'b']);
    assert_eq!(dgram::encode(64, b"ab"), vec![0x40, 0x40, 0, b'a', b'b']);
    assert_eq!(dgram::encode(63, &[0; 1312]).len(), 1314);
}

#[test]
fn truncated_datagram_is_none() {
    assert!(dgram::decode(&[]).is_none());
    assert!(dgram::decode(&[0]).is_none());
    assert!(dgram::decode(&[0x40]).is_none());
    let p = dgram::decode(&[1, 2]).unwrap();
    assert_eq!((p.flow_id, p.context_id, p.payload.len()), (1, 2, 0));
}

#[test]
fn byte_strings_are_ordered_like_words() {
    assert!(bytes::at_most(b"", b""));
    assert!(bytes::at_most(b"", b"a"));
    assert!(bytes::at_most(b"a", b"aa"));
    assert!(!bytes::at_most(b"aa", b"a"));
    assert!(bytes::at_most(b"ab", b"b"));
    assert!(!bytes::at_most(b"b", b"ab"));
    assert!(bytes::at_most(b"Z", b"a"));
    assert!(bytes::at_most(&[0x7f], &[0xc3, 0xa9]));
}

#[test]
fn big_endian_numbers() {
    let mut out = Vec::new();
    bytes::push_be(&mut out, 0x0102_0304, 4);
    assert_eq!(out, vec![1, 2, 3, 4]);
    assert_eq!(bytes::read_be(&out, 1, 2), 0x0203);
}
