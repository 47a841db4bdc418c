//! Small helpers shared by the proxy server and client.

use vstd::prelude::*;
use vstd::utf8::decode_utf8;
use vstd::utf8::encode_utf8;
use vstd::utf8::encode_utf8_decode_utf8;
use vstd::utf8::encode_utf8_valid_utf8;
use vstd::utf8::valid_utf8;

use crate::bytes::copy_of;
use crate::text::chars_of;
use crate::text::decimal;
use crate::text::decimal_u64;
use crate::text::same_chars;
use crate::text::string_of;
use crate::text::text_of_utf8;

verus! {

/// Scratch buffer size for a single UDP datagram read.
pub const RECV_BUF: usize = 65535;

/// Bound on the local channels shuttling packets between tasks.
pub const CHANNEL_CAP: usize = 1024;

/// The lower-case hexadecimal digit of `d`.
pub open spec fn hex_digit(d: int) -> char {
    if d < 10 {
        ('0' as int + d) as char
    } else {
        ('a' as int + (d - 10)) as char
    }
}

/// The lower-case hexadecimal notation of `bytes`: two digits per byte, the high
/// one first.
pub open spec fn hex_text(bytes: Seq<u8>) -> Seq<char> {
    Seq::new(
        2 * bytes.len(),
        |i: int|
            if i % 2 == 0 {
                hex_digit(bytes[i / 2] as int / 16)
            } else {
                hex_digit(bytes[i / 2] as int % 16)
            },
    )
}

fn digit_char(d: u8) -> (c: char)
    requires
        d < 16,
    ensures
        c == hex_digit(d as int),
{
    if d < 10 {
        (48u8 + d) as char
    } else {
        (97u8 + (d - 10)) as char
    }
}

/// Lower-case hex encoding, for logging connection IDs and fingerprints.
pub fn hex(bytes: &[u8]) -> (s: String)
    ensures
        s@ == hex_text(bytes@),
{
    let mut s = String::new();
    let mut i: usize = 0;
    while i < bytes.len()
        invariant
            i <= bytes@.len(),
            s@ == hex_text(bytes@.take(i as int)),
        decreases bytes@.len() - i,
    {
        s.push(digit_char(bytes[i] / 16));
        s.push(digit_char(bytes[i] % 16));
        proof {
            let t = hex_text(bytes@.take(i + 1));
            assert forall|k: int| 0 <= k < t.len() implies t[k] == s@[k] by {
                if k < 2 * i {
                    assert(t[k] == hex_text(bytes@.take(i as int))[k]);
                } else {
                    assert(k / 2 == i);
                }
            }
            assert(s@ =~= t);
        }
        i = i + 1;
    }
    assert(bytes@.take(i as int) =~= bytes@);
    s
}

/// Different byte strings have different hexadecimal notations.
pub proof fn lemma_hex_injective(a: Seq<u8>, b: Seq<u8>)
    requires
        hex_text(a) == hex_text(b),
    ensures
        a == b,
{
    assert(hex_text(a).len() == 2 * a.len() && hex_text(b).len() == 2 * b.len());
    assert(a.len() == b.len());
    assert forall|i: int| 0 <= i < a.len() implies a[i] == b[i] by {
        let hi = 2 * i;
        let lo = 2 * i + 1;
        assert(hi / 2 == i && lo / 2 == i && hi % 2 == 0 && lo % 2 == 1);
        assert(hex_text(a)[hi] == hex_digit(a[i] as int / 16));
        assert(hex_text(b)[hi] == hex_digit(b[i] as int / 16));
        assert(hex_text(a)[lo] == hex_digit(a[i] as int % 16));
        assert(hex_text(b)[lo] == hex_digit(b[i] as int % 16));
    }
    assert(a =~= b);
}

/// The bytes in hexadecimal notation, with commas between them.
pub open spec fn hex_items(bytes: Seq<u8>) -> Seq<char>
    decreases bytes.len(),
{
    if bytes.len() <= 1 {
        hex_text(bytes)
    } else {
        hex_items(bytes.drop_last()) + seq![',', ' '] + hex_text(seq![bytes.last()])
    }
}

/// How a received payload is shown: as text where it is text, as a list of bytes in
/// hexadecimal notation otherwise.
pub open spec fn spec_payload_line(payload: Seq<u8>) -> Seq<char> {
    let start = "recv "@ + decimal(payload.len());
    if valid_utf8(payload) {
        start + " bytes: "@ + decode_utf8(payload)
    } else {
        start + " bytes (binary): ["@ + hex_items(payload) + "]"@
    }
}

fn push_text(s: &mut String, tail: &str)
    ensures
        final(s)@ == old(s)@ + tail@,
{
    s.append(tail);
}

/// The line that shows a received payload.
pub fn payload_line(payload: &[u8]) -> (r: String)
    ensures
        r@ == spec_payload_line(payload@),
{
    let n: usize = payload.len();
    let digits = decimal_u64(n as u64);
    let count = string_of(&digits, 0, digits.len());
    assert(count@ =~= digits@);
    let mut r = String::new();
    push_text(&mut r, "recv ");
    push_text(&mut r, &count);
    let bytes = copy_of(payload, 0, n);
    assert(bytes@ =~= payload@);
    match text_of_utf8(bytes) {
        Some(text) => {
            push_text(&mut r, " bytes: ");
            push_text(&mut r, &text);
        },
        None => {
            push_text(&mut r, " bytes (binary): [");
            let mut items = String::new();
            let mut i: usize = 0;
            while i < n
                invariant
                    i <= n == payload@.len(),
                    items@ == hex_items(payload@.take(i as int)),
                decreases n - i,
            {
                if i > 0 {
                    push_text(&mut items, ", ");
                }
                let one: [u8; 1] = [payload[i]];
                push_text(&mut items, &hex(&one));
                proof {
                    reveal_strlit(", ");
                    assert(", "@ =~= seq![',', ' ']);
                    let t = payload@.take(i + 1);
                    assert(one@ =~= seq![payload@[i as int]]);
                    assert(t.drop_last() =~= payload@.take(i as int));
                    if i == 0 {
                        assert(t =~= one@);
                        assert(hex_items(payload@.take(0)) =~= Seq::empty());
                        assert(items@ =~= hex_items(t));
                    }
                }
                i = i + 1;
            }
            assert(payload@.take(n as int) =~= payload@);
            push_text(&mut r, &items);
            push_text(&mut r, "]");
        },
    }
    assert(r@ =~= spec_payload_line(payload@));
    r
}

/// How much is logged.
#[derive(Clone, Copy, Debug, PartialEq, Eq, Structural)]
pub enum LogLevel {
    Off,
    Error,
    Warn,
    Info,
    Debug,
    Trace,
}

/// The level that a setting asks for; `info` is what any other text, or none, gives.
pub open spec fn spec_log_level(setting: Option<Seq<char>>) -> LogLevel {
    match setting {
        None => LogLevel::Info,
        Some(s) => if s == "off"@ {
            LogLevel::Off
        } else if s == "error"@ {
            LogLevel::Error
        } else if s == "warn"@ {
            LogLevel::Warn
        } else if s == "debug"@ {
            LogLevel::Debug
        } else if s == "trace"@ {
            LogLevel::Trace
        } else {
            LogLevel::Info
        },
    }
}

fn same_text(a: &str, b: &str) -> (r: bool)
    ensures
        r == (a@ == b@),
{
    let x = chars_of(a);
    let y = chars_of(b);
    same_chars(&x, &y)
}

/// The level that a setting asks for.
pub fn log_level(setting: Option<&str>) -> (r: LogLevel)
    ensures
        r == spec_log_level(
            match setting {
                Some(s) => Some(s@),
                None => None,
            },
        ),
{
    let s = match setting {
        Some(s) => s,
        None => return LogLevel::Info,
    };
    if same_text(s, "off") {
        LogLevel::Off
    } else if same_text(s, "error") {
        LogLevel::Error
    } else if same_text(s, "warn") {
        LogLevel::Warn
    } else if same_text(s, "debug") {
        LogLevel::Debug
    } else if same_text(s, "trace") {
        LogLevel::Trace
    } else {
        LogLevel::Info
    }
}

/// The hexadecimal notation of a byte is two digits, the high one first.
pub proof fn lemma_hex_written_out(bytes: Seq<u8>, i: int)
    requires
        0 <= i < bytes.len(),
    ensures
        hex_text(bytes).len() == 2 * bytes.len(),
        hex_text(bytes)[2 * i] == "0123456789abcdef"@[bytes[i] as int / 16],
        hex_text(bytes)[2 * i + 1] == "0123456789abcdef"@[bytes[i] as int % 16],
{
    reveal_strlit("0123456789abcdef");
    assert((2 * i) / 2 == i && (2 * i) % 2 == 0);
    assert((2 * i + 1) / 2 == i && (2 * i + 1) % 2 == 1);
}

/// Bytes are listed one by one, with a comma and a blank between them.
pub proof fn lemma_hex_items(bytes: Seq<u8>, b: u8)
    ensures
        hex_items(Seq::empty()) == Seq::<char>::empty(),
        hex_items(seq![b]) == hex_text(seq![b]),
        bytes.len() > 0 ==> hex_items(bytes.push(b)) == hex_items(bytes) + ", "@ + hex_text(
            seq![b],
        ),
{
    reveal_strlit(", ");
    assert(", "@ =~= seq![',', ' ']);
    assert(hex_text(Seq::<u8>::empty()) =~= Seq::empty());
    assert(bytes.push(b).drop_last() =~= bytes);
}

/// A payload that is text is shown as that text, and any other as a list of its bytes,
/// both behind the number of bytes.
pub proof fn lemma_payload_shown(text: Seq<char>, payload: Seq<u8>)
    ensures
        spec_payload_line(encode_utf8(text)) == "recv "@ + decimal(encode_utf8(text).len())
            + " bytes: "@ + text,
        !valid_utf8(payload) ==> spec_payload_line(payload) == "recv "@ + decimal(payload.len())
            + " bytes (binary): ["@ + hex_items(payload) + "]"@,
{
    encode_utf8_valid_utf8(text);
    encode_utf8_decode_utf8(text);
}

/// Each level has its name, and any other text, or none, stands for `info`.
pub proof fn lemma_log_levels(other: Seq<char>)
    ensures
        spec_log_level(Some("off"@)) == LogLevel::Off,
        spec_log_level(Some("error"@)) == LogLevel::Error,
        spec_log_level(Some("warn"@)) == LogLevel::Warn,
        spec_log_level(Some("info"@)) == LogLevel::Info,
        spec_log_level(Some("debug"@)) == LogLevel::Debug,
        spec_log_level(Some("trace"@)) == LogLevel::Trace,
        spec_log_level(None) == LogLevel::Info,
        other != "off"@ && other != "error"@ && other != "warn"@ && other != "debug"@ && other
            != "trace"@ ==> spec_log_level(Some(other)) == LogLevel::Info,
{
    reveal_strlit("off");
    reveal_strlit("error");
    reveal_strlit("warn");
    reveal_strlit("info");
    reveal_strlit("debug");
    reveal_strlit("trace");
    assert("error"@[0] == 'e' && "debug"@[0] == 'd' && "trace"@[0] == 't');
    assert("warn"@[0] == 'w' && "info"@[0] == 'i');
    assert("off"@.len() == 3 && "warn"@.len() == 4 && "info"@.len() == 4);
    assert("error"@.len() == 5 && "debug"@.len() == 5 && "trace"@.len() == 5);
}

} // verus!
