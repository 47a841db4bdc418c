//! Base64 with padding, from the crate `base64ct`.

use base64ct::Encoding;
use vstd::prelude::*;

verus! {

/// Why a text is no Base64.
#[derive(Clone, Copy, Debug, PartialEq, Eq, Structural)]
pub enum Base64Error {
    /// A character, the length or the padding is not valid.
    InvalidEncoding,
}

/// The character for six bits.
pub open spec fn symbol(d: int) -> char {
    if d < 26 {
        ('A' as int + d) as char
    } else if d < 52 {
        ('a' as int + (d - 26)) as char
    } else if d < 62 {
        ('0' as int + (d - 52)) as char
    } else if d == 62 {
        '+'
    } else {
        '/'
    }
}

/// The byte at `i`, or zero behind the end.
pub open spec fn byte_at(bytes: Seq<u8>, i: int) -> int {
    if i < bytes.len() {
        bytes[i] as int
    } else {
        0
    }
}

/// The six bits at place `p`, counted from the left, of three bytes.
pub open spec fn sextet(b0: int, b1: int, b2: int, p: int) -> int {
    if p == 0 {
        b0 / 4
    } else if p == 1 {
        (b0 % 4) * 16 + b1 / 16
    } else if p == 2 {
        (b1 % 16) * 4 + b2 / 64
    } else {
        b2 % 64
    }
}

/// The standard Base64 form of some bytes: four characters for each three bytes
/// begun, with padding for the bytes that are missing.
pub open spec fn base64_encode(bytes: Seq<u8>) -> Seq<char> {
    Seq::new(
        4 * ((bytes.len() + 2) / 3),
        |i: int|
            {
                let g = 3 * (i / 4);
                if g + i % 4 > bytes.len() {
                    '='
                } else {
                    symbol(
                        sextet(
                            byte_at(bytes, g),
                            byte_at(bytes, g + 1),
                            byte_at(bytes, g + 2),
                            i % 4,
                        ),
                    )
                }
            },
    )
}

/// The bytes that a text is the Base64 form of.
pub open spec fn base64_decode(text: Seq<char>) -> Result<Seq<u8>, Base64Error> {
    if exists|b: Seq<u8>| base64_encode(b) == text {
        Ok(choose|b: Seq<u8>| base64_encode(b) == text)
    } else {
        Err(Base64Error::InvalidEncoding)
    }
}

/// The characters of standard Base64, padding included.
pub open spec fn is_base64_char(c: char) -> bool {
    'A' <= c <= 'Z' || 'a' <= c <= 'z' || '0' <= c <= '9' || c == '+' || c == '/' || c == '='
}

/// `base64ct::Base64::encode_string` gives the standard Base64 form of the bytes,
/// with padding. It panics on more than `usize::MAX / 4` bytes.
#[verifier::external_body]
pub(crate) fn encode_text(bytes: &[u8]) -> (r: String)
    requires
        bytes@.len() <= usize::MAX / 4,
    ensures
        r@ == base64_encode(bytes@),
{
    base64ct::Base64::encode_string(bytes)
}

/// `base64ct::Base64::decode_vec` gives the bytes whose standard Base64 form, with
/// padding, the text is. It fails on every other text, also where only unused bits
/// or the padding differ.
#[verifier::external_body]
fn decode_strict(text: &str) -> (r: Option<Vec<u8>>)
    ensures
        match r {
            Some(bytes) => base64_encode(bytes@) == text@,
            None => forall|b: Seq<u8>| base64_encode(b) != text@,
        },
{
    base64ct::Base64::decode_vec(text).ok()
}

/// The bytes that a Base64 text stands for.
pub(crate) fn decode_text(text: &str) -> (r: Result<Vec<u8>, Base64Error>)
    ensures
        match r {
            Ok(bytes) => base64_decode(text@) == Ok::<Seq<u8>, Base64Error>(bytes@),
            Err(e) => base64_decode(text@) == Err::<Seq<u8>, Base64Error>(e),
        },
{
    match decode_strict(text) {
        Some(bytes) => {
            proof {
                lemma_base64_roundtrip(bytes@);
            }
            Ok(bytes)
        },
        None => Err(Base64Error::InvalidEncoding),
    }
}

proof fn lemma_symbol(d: int, e: int)
    requires
        0 <= d < 64,
        0 <= e < 64,
    ensures
        is_base64_char(symbol(d)),
        symbol(d) != '=',
        symbol(d) == symbol(e) ==> d == e,
{
}

proof fn lemma_sextet(b0: int, b1: int, b2: int)
    requires
        0 <= b0 < 256,
        0 <= b1 < 256,
        0 <= b2 < 256,
    ensures
        forall|p: int| 0 <= p < 4 ==> 0 <= #[trigger] sextet(b0, b1, b2, p) < 64,
        b0 == sextet(b0, b1, b2, 0) * 4 + sextet(b0, b1, b2, 1) / 16,
        b1 == (sextet(b0, b1, b2, 1) % 16) * 16 + sextet(b0, b1, b2, 2) / 4,
        b2 == (sextet(b0, b1, b2, 2) % 4) * 64 + sextet(b0, b1, b2, 3),
{
}

/// The six bits behind the character at place `p` of the group that starts at `g`.
spec fn bits(s: Seq<u8>, g: int, p: int) -> int {
    sextet(byte_at(s, g), byte_at(s, g + 1), byte_at(s, g + 2), p)
}

proof fn lemma_char_at(s: Seq<u8>, k: int, p: int)
    requires
        0 <= k,
        3 * k < s.len(),
        0 <= p < 4,
    ensures
        4 * k + p < base64_encode(s).len(),
        3 * k + p <= s.len() ==> base64_encode(s)[4 * k + p] == symbol(bits(s, 3 * k, p)),
        3 * k + p > s.len() ==> base64_encode(s)[4 * k + p] == '=',
        0 <= bits(s, 3 * k, p) < 64,
{
    let i = 4 * k + p;
    assert(i / 4 == k && i % 4 == p);
    lemma_sextet(byte_at(s, 3 * k), byte_at(s, 3 * k + 1), byte_at(s, 3 * k + 2));
}

proof fn lemma_not_shorter(a: Seq<u8>, b: Seq<u8>)
    requires
        base64_encode(a) == base64_encode(b),
    ensures
        a.len() >= b.len(),
{
    if a.len() < b.len() {
        assert(base64_encode(a).len() == 4 * ((a.len() + 2) / 3));
        assert(base64_encode(b).len() == 4 * ((b.len() + 2) / 3));
        let k = (b.len() - 1) / 3;
        let p = b.len() - 3 * k;
        assert(3 * k < a.len());
        lemma_char_at(a, k, p);
        lemma_char_at(b, k, p);
        lemma_symbol(bits(b, 3 * k, p), 0);
    }
}

proof fn lemma_same_bits(a: Seq<u8>, b: Seq<u8>, k: int, p: int)
    requires
        base64_encode(a) == base64_encode(b),
        a.len() == b.len(),
        0 <= k,
        3 * k < a.len(),
        0 <= p < 4,
        3 * k + p <= a.len(),
    ensures
        bits(a, 3 * k, p) == bits(b, 3 * k, p),
{
    lemma_char_at(a, k, p);
    lemma_char_at(b, k, p);
    lemma_symbol(bits(a, 3 * k, p), bits(b, 3 * k, p));
}

/// Different byte strings have different Base64 forms.
pub proof fn lemma_base64_injective(a: Seq<u8>, b: Seq<u8>)
    requires
        base64_encode(a) == base64_encode(b),
    ensures
        a == b,
{
    lemma_not_shorter(a, b);
    lemma_not_shorter(b, a);
    assert forall|i: int| 0 <= i < a.len() implies a[i] == b[i] by {
        let k = i / 3;
        let q = i % 3;
        let g = 3 * k;
        lemma_same_bits(a, b, k, q);
        lemma_same_bits(a, b, k, q + 1);
        lemma_sextet(byte_at(a, g), byte_at(a, g + 1), byte_at(a, g + 2));
        lemma_sextet(byte_at(b, g), byte_at(b, g + 1), byte_at(b, g + 2));
        assert(byte_at(a, g + q) == byte_at(b, g + q));
    }
    assert(a =~= b);
}

/// Decoding the Base64 form of some bytes gives them back.
pub proof fn lemma_base64_roundtrip(bytes: Seq<u8>)
    ensures
        base64_decode(base64_encode(bytes)) == Ok::<Seq<u8>, Base64Error>(bytes),
{
    let text = base64_encode(bytes);
    let b = choose|b: Seq<u8>| base64_encode(b) == text;
    assert(base64_encode(bytes) == text);
    lemma_base64_injective(b, bytes);
}

/// A Base64 form holds Base64 characters only.
pub proof fn lemma_base64_chars(bytes: Seq<u8>)
    ensures
        forall|i: int|
            0 <= i < base64_encode(bytes).len() ==> is_base64_char(
                #[trigger] base64_encode(bytes)[i],
            ),
{
    let s = base64_encode(bytes);
    assert forall|i: int| 0 <= i < s.len() implies is_base64_char(#[trigger] s[i]) by {
        let k = i / 4;
        let p = i % 4;
        lemma_char_at(bytes, k, p);
        lemma_symbol(bits(bytes, 3 * k, p), 0);
    }
}

/// The alphabet of standard Base64.
pub proof fn lemma_alphabet(d: int)
    requires
        0 <= d < 64,
    ensures
        symbol(d) == "ABCDEFGHIJKLMNOPQRSTUVWXYZabcdefghijklmnopqrstuvwxyz0123456789+/"@[d],
{
    reveal_strlit("ABCDEFGHIJKLMNOPQRSTUVWXYZabcdefghijklmnopqrstuvwxyz0123456789+/");
}

/// Three bytes are written as four characters of six bits each, most significant first. Of
/// a single byte at the end two characters are written, of two bytes three, with padding up
/// to four and zeros for the bits that are missing.
pub proof fn lemma_groups(bytes: Seq<u8>, k: int, a: int, b: int, c: int, d: int)
    requires
        0 <= k,
        3 * k < bytes.len(),
        0 <= a < 64,
        0 <= b < 64,
        0 <= c < 64,
        0 <= d < 64,
        base64_encode(bytes)[4 * k] == symbol(a),
        base64_encode(bytes)[4 * k + 1] == symbol(b),
        if 3 * k + 2 <= bytes.len() {
            base64_encode(bytes)[4 * k + 2] == symbol(c)
        } else {
            c == 0
        },
        if 3 * k + 3 <= bytes.len() {
            base64_encode(bytes)[4 * k + 3] == symbol(d)
        } else {
            d == 0
        },
    ensures
        base64_encode(bytes).len() == 4 * ((bytes.len() + 2) / 3),
        3 * k + 2 > bytes.len() ==> base64_encode(bytes)[4 * k + 2] == '=',
        3 * k + 3 > bytes.len() ==> base64_encode(bytes)[4 * k + 3] == '=',
        a * 0x4_0000 + b * 0x1000 + c * 0x40 + d == bytes[3 * k] * 0x1_0000 + (if 3 * k + 2
            <= bytes.len() {
            bytes[3 * k + 1] as int
        } else {
            0
        }) * 0x100 + (if 3 * k + 3 <= bytes.len() {
            bytes[3 * k + 2] as int
        } else {
            0
        }),
{
    lemma_char_at(bytes, k, 0);
    lemma_char_at(bytes, k, 1);
    lemma_char_at(bytes, k, 2);
    lemma_char_at(bytes, k, 3);
    lemma_symbol(a, bits(bytes, 3 * k, 0));
    lemma_symbol(b, bits(bytes, 3 * k, 1));
    lemma_symbol(c, bits(bytes, 3 * k, 2));
    lemma_symbol(d, bits(bytes, 3 * k, 3));
    let b0 = byte_at(bytes, 3 * k);
    let b1 = byte_at(bytes, 3 * k + 1);
    let b2 = byte_at(bytes, 3 * k + 2);
    lemma_sextets_of(b0, b1, b2);
}

proof fn lemma_sextets_of(b0: int, b1: int, b2: int)
    requires
        0 <= b0 < 256,
        0 <= b1 < 256,
        0 <= b2 < 256,
    ensures
        sextet(b0, b1, b2, 0) * 0x4_0000 + sextet(b0, b1, b2, 1) * 0x1000 + sextet(b0, b1, b2, 2)
            * 0x40 + sextet(b0, b1, b2, 3) == b0 * 0x1_0000 + b1 * 0x100 + b2,
{
}

/// A text is decoded only if it is the Base64 form of what comes out.
pub proof fn lemma_decoded_is_encoded(text: Seq<char>)
    ensures
        base64_decode(text) matches Ok(bytes) ==> base64_encode(bytes) == text,
        base64_decode(text) is Err ==> forall|b: Seq<u8>| base64_encode(b) != text,
{
}

} // verus!
