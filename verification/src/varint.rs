//! QUIC variable-length integers (RFC 9000, section 16).
//!
//! The two high bits of the first byte select a length of 1, 2, 4 or 8 bytes.
//! The remaining bits, most significant byte first, are the value.

use vstd::prelude::*;

use crate::bytes;
use crate::bytes::push_be;

verus! {

/// One more than the largest value that a varint can hold.
pub const VALUE_LIMIT: u64 = 0x4000_0000_0000_0000;

/// The length that the first byte of an encoding selects.
pub open spec fn selected_len(first: u8) -> nat {
    if first < 64 {
        1
    } else if first < 128 {
        2
    } else if first < 192 {
        4
    } else {
        8
    }
}

/// The length of the encoding of `value`.
pub open spec fn spec_encoded_len(value: u64) -> nat {
    if value <= 63 {
        1
    } else if value <= 16383 {
        2
    } else if value <= 1_073_741_823 {
        4
    } else {
        8
    }
}

/// The encoding of `value`: the length selector, then the value. Of a value that
/// is too large for a varint the low 62 bits are encoded.
pub open spec fn spec_encode(value: u64) -> Seq<u8> {
    if value <= 63 {
        bytes::be_bytes(value as nat, 1)
    } else if value <= 16383 {
        bytes::be_bytes((0x4000 + value) as nat, 2)
    } else if value <= 1_073_741_823 {
        bytes::be_bytes((0x8000_0000 + value) as nat, 4)
    } else {
        bytes::be_bytes((0xc000_0000_0000_0000 + value as nat % VALUE_LIMIT as nat) as nat, 8)
    }
}

/// The value at the front of `buf` and the length of its encoding.
pub open spec fn spec_decode(buf: Seq<u8>) -> Option<(u64, usize)> {
    if buf.len() == 0 || buf.len() < selected_len(buf[0]) {
        None
    } else {
        let len = selected_len(buf[0]);
        let value = bytes::be_value(seq![(buf[0] % 64) as u8] + buf.subrange(1, len as int));
        Some((value as u64, len as usize))
    }
}

/// Decode a varint from the front of `buf`: the value and the number of bytes
/// consumed, or `None` if `buf` is too short.
pub fn decode(buf: &[u8]) -> (r: Option<(u64, usize)>)
    ensures
        r == spec_decode(buf@),
{
    if buf.len() == 0 {
        return None;
    }
    let first: u8 = buf[0];
    let len: usize = if first < 64 {
        1
    } else if first < 128 {
        2
    } else if first < 192 {
        4
    } else {
        8
    };
    if buf.len() < len {
        return None;
    }
    let ghost head = seq![(first % 64) as u8];
    let mut value: u64 = (first % 64) as u64;
    let mut i: usize = 1;
    proof {
        let s = head + buf@.subrange(1, 1);
        assert(s.drop_last() =~= Seq::<u8>::empty());
        assert(bytes::be_value(s.drop_last()) == 0);
        assert(s.last() == head[0]);
        bytes::lemma_byte_values();
    }
    while i < len
        invariant
            1 <= i <= len <= 8,
            len <= buf@.len(),
            head == seq![(buf@[0] % 64) as u8],
            value == bytes::be_value(head + buf@.subrange(1, i as int)),
            value < 64 * bytes::byte_values((i - 1) as nat),
        decreases len - i,
    {
        proof {
            let s = head + buf@.subrange(1, i + 1);
            assert(s.drop_last() =~= head + buf@.subrange(1, i as int));
            assert(s.last() == buf@[i as int]);
            bytes::lemma_byte_values();
        }
        value = value * 256 + buf[i] as u64;
        i = i + 1;
    }
    Some((value, len))
}

/// Number of bytes `value` encodes to.
pub fn encoded_len(value: u64) -> (r: usize)
    ensures
        r == spec_encoded_len(value),
        r == spec_encode(value).len(),
{
    proof {
        lemma_encode_len(value);
    }
    if value <= 63 {
        1
    } else if value <= 16383 {
        2
    } else if value <= 1_073_741_823 {
        4
    } else {
        8
    }
}

/// Append the varint encoding of `value` to `out`.
pub fn encode(value: u64, out: &mut Vec<u8>)
    ensures
        final(out)@ == old(out)@ + spec_encode(value),
{
    if value <= 63 {
        push_be(out, value, 1);
    } else if value <= 16383 {
        push_be(out, 0x4000 + value, 2);
    } else if value <= 1_073_741_823 {
        push_be(out, 0x8000_0000 + value, 4);
    } else {
        push_be(out, 0xc000_0000_0000_0000 + value % VALUE_LIMIT, 8);
    }
}

/// An encoding has the length that `spec_encoded_len` gives.
pub proof fn lemma_encode_len(value: u64)
    ensures
        spec_encode(value).len() == spec_encoded_len(value),
{
    bytes::lemma_be_bytes_len(value as nat, 1);
    bytes::lemma_be_bytes_len((0x4000 + value) as nat, 2);
    bytes::lemma_be_bytes_len((0x8000_0000 + value) as nat, 4);
    bytes::lemma_be_bytes_len(
        (0xc000_0000_0000_0000 + value as nat % VALUE_LIMIT as nat) as nat,
        8,
    );
}

/// Decoding an encoding, whatever follows it, gives the value and its length.
pub proof fn lemma_roundtrip(value: u64, rest: Seq<u8>)
    requires
        value < VALUE_LIMIT,
    ensures
        spec_decode(spec_encode(value) + rest) == Some((value, spec_encoded_len(value) as usize)),
{
    let len = spec_encoded_len(value);
    let n: nat = (if len == 1 {
        value as int
    } else if len == 2 {
        0x4000 + value
    } else if len == 4 {
        0x8000_0000 + value
    } else {
        0xc000_0000_0000_0000 + value
    }) as nat;
    let e = spec_encode(value);
    lemma_encode_len(value);
    bytes::lemma_byte_values();
    assert(e == bytes::be_bytes(n, len));
    bytes::lemma_be_roundtrip(n, len);
    lemma_first_byte(e);
    let buf = e + rest;
    assert(buf[0] == e[0]);
    let tail = e.subrange(1, len as int);
    assert(buf.subrange(1, len as int) =~= tail);
    bytes::lemma_be_value_bytes(tail);
    let low = seq![(e[0] % 64) as u8] + tail;
    assert(low.subrange(1, len as int) =~= tail);
    lemma_first_byte(low);
    let t = bytes::be_value(tail);
    if len == 1 {
        assert(n == e[0] * 1 + t && t < 1);
        assert(bytes::be_value(low) == (e[0] % 64) * 1 + t);
    } else if len == 2 {
        assert(n == e[0] * 0x100 + t && t < 0x100);
        assert(bytes::be_value(low) == (e[0] % 64) * 0x100 + t);
    } else if len == 4 {
        assert(n == e[0] * 0x100_0000 + t && t < 0x100_0000);
        assert(bytes::be_value(low) == (e[0] % 64) * 0x100_0000 + t);
    } else {
        assert(n == e[0] * 0x100_0000_0000_0000 + t && t < 0x100_0000_0000_0000);
        assert(bytes::be_value(low) == (e[0] % 64) * 0x100_0000_0000_0000 + t);
    }
    assert(selected_len(e[0]) == len);
}

/// The first byte of a number is its most significant part.
proof fn lemma_first_byte(s: Seq<u8>)
    requires
        s.len() > 0,
    ensures
        bytes::be_value(s) == s[0] * bytes::byte_values((s.len() - 1) as nat) + bytes::be_value(
            s.subrange(1, s.len() as int),
        ),
    decreases s.len(),
{
    let t = s.subrange(1, s.len() as int);
    if s.len() == 1 {
        assert(s.drop_last() =~= Seq::<u8>::empty());
        assert(t =~= Seq::<u8>::empty());
        assert(bytes::be_value(s.drop_last()) == 0);
        assert(bytes::be_value(t) == 0);
        assert(bytes::byte_values(0) == 1);
        assert(s[0] * 1 == s[0]);
    } else {
        lemma_first_byte(s.drop_last());
        assert(s.drop_last().subrange(1, s.len() - 1) =~= t.drop_last());
        let p = bytes::byte_values((s.len() - 2) as nat);
        let x = s[0] as nat;
        let y = bytes::be_value(t.drop_last());
        assert((x * p + y) * 256 == x * (256 * p) + y * 256) by (nonlinear_arith);
        assert(t.last() == s.last());
        assert(bytes::byte_values((s.len() - 1) as nat) == 256 * p);
    }
}

/// The encoding of a value, byte by byte, most significant first. Up to 63 it is one
/// byte, up to 16383 two, up to 1073741823 four and above that eight; the two high bits
/// of the first byte are 0, 1, 2 or 3 for these.
pub proof fn lemma_bytes_written_out(value: u64)
    requires
        value < 0x4000_0000_0000_0000,
    ensures
        value <= 63 ==> spec_encode(value) == seq![value as u8],
        63 < value <= 16383 ==> {
            let e = spec_encode(value);
            e.len() == 2 && e[0] * 0x100 + e[1] == 0x4000 + value
        },
        16383 < value <= 1_073_741_823 ==> {
            let e = spec_encode(value);
            e.len() == 4 && e[0] * 0x100_0000 + e[1] * 0x1_0000 + e[2] * 0x100 + e[3]
                == 0x8000_0000 + value
        },
        1_073_741_823 < value ==> {
            let e = spec_encode(value);
            e.len() == 8 && e[0] * 0x100_0000_0000_0000 + e[1] * 0x1_0000_0000_0000 + e[2]
                * 0x100_0000_0000 + e[3] * 0x1_0000_0000 + e[4] * 0x100_0000 + e[5] * 0x1_0000
                + e[6] * 0x100 + e[7] == 0xc000_0000_0000_0000 + value
        },
{
    let e = spec_encode(value);
    lemma_encode_len(value);
    bytes::lemma_byte_values();
    bytes::lemma_be_value_written_out(e);
    if value <= 63 {
        bytes::lemma_be_roundtrip(value as nat, 1);
        assert(e =~= seq![value as u8]);
    } else if value <= 16383 {
        bytes::lemma_be_roundtrip((0x4000 + value) as nat, 2);
    } else if value <= 1_073_741_823 {
        bytes::lemma_be_roundtrip((0x8000_0000 + value) as nat, 4);
    } else {
        assert(value as nat % VALUE_LIMIT as nat == value);
        bytes::lemma_be_roundtrip((0xc000_0000_0000_0000 + value) as nat, 8);
    }
}

/// What the front of a buffer is decoded into, byte by byte. The two high bits of the
/// first byte give the length, and without that many bytes nothing is decoded.
pub proof fn lemma_decoded_written_out(buf: Seq<u8>)
    ensures
        buf.len() == 0 ==> spec_decode(buf) is None,
        buf.len() > 0 && buf[0] < 0x40 ==> spec_decode(buf) == Some((buf[0] as u64, 1usize)),
        buf.len() > 0 && 0x40 <= buf[0] < 0x80 ==> spec_decode(buf) == if buf.len() < 2 {
            None
        } else {
            Some((((buf[0] - 0x40) * 0x100 + buf[1]) as u64, 2usize))
        },
        buf.len() > 0 && 0x80 <= buf[0] < 0xc0 ==> spec_decode(buf) == if buf.len() < 4 {
            None
        } else {
            Some(
                (
                    ((buf[0] - 0x80) * 0x100_0000 + buf[1] * 0x1_0000 + buf[2] * 0x100
                        + buf[3]) as u64,
                    4usize,
                ),
            )
        },
        buf.len() > 0 && 0xc0 <= buf[0] ==> spec_decode(buf) == if buf.len() < 8 {
            None
        } else {
            Some(
                (
                    ((buf[0] - 0xc0) * 0x100_0000_0000_0000 + buf[1] * 0x1_0000_0000_0000 + buf[2]
                        * 0x100_0000_0000 + buf[3] * 0x1_0000_0000 + buf[4] * 0x100_0000 + buf[5]
                        * 0x1_0000 + buf[6] * 0x100 + buf[7]) as u64,
                    8usize,
                ),
            )
        },
{
    if buf.len() > 0 && buf.len() >= selected_len(buf[0]) {
        let len = selected_len(buf[0]);
        let s = seq![(buf[0] % 64) as u8] + buf.subrange(1, len as int);
        bytes::lemma_be_value_written_out(s);
    }
}

/// Of a value that is too large the low 62 bits are encoded.
pub proof fn lemma_large_value(value: u64, rest: Seq<u8>)
    requires
        value >= 0x4000_0000_0000_0000,
    ensures
        ({
            let e = spec_encode(value);
            &&& e.len() == 8
            &&& e[0] >= 0xc0
            &&& spec_decode(e + rest) == Some((value % 0x4000_0000_0000_0000, 8usize))
        }),
{
    let e = spec_encode(value);
    let low: u64 = value % 0x4000_0000_0000_0000;
    let n = (0xc000_0000_0000_0000 + low as nat) as nat;
    lemma_encode_len(value);
    bytes::lemma_byte_values();
    assert(e == bytes::be_bytes(n, 8));
    bytes::lemma_be_roundtrip(n, 8);
    bytes::lemma_be_value_written_out(e);
    let buf = e + rest;
    assert forall|i: int| 0 <= i < 8 implies buf[i] == e[i] by {}
    lemma_decoded_written_out(buf);
}

} // verus!
