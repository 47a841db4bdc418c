//! The HTTP/3 headers of CONNECT-UDP requests and responses.

use vstd::prelude::*;
use vstd::utf8::decode_utf8;
use vstd::utf8::decode_utf8_encode_utf8;
use vstd::utf8::encode_utf8;
use vstd::utf8::encode_utf8_decode_utf8;
use vstd::utf8::encode_utf8_valid_utf8;
use vstd::utf8::valid_utf8;

use crate::bytes::copy_of;
use crate::bytes::same_bytes;
use crate::text::chars_of;
use crate::text::decimal;
use crate::text::decimal_u16;
use crate::text::lemma_decimal_roundtrip;
use crate::text::lemma_three_digits;
use crate::text::lemma_three_digits_read;
use crate::text::parse_u16;
use crate::text::string_of;
use crate::text::text_of_utf8;
use crate::text::u16_of;

verus! {

pub const METHOD: &'static str = ":method";

pub const PROTOCOL: &'static str = ":protocol";

pub const SCHEME: &'static str = ":scheme";

pub const AUTHORITY: &'static str = ":authority";

pub const PATH: &'static str = ":path";

pub const STATUS: &'static str = ":status";

pub const CAPSULE_PROTOCOL: &'static str = "capsule-protocol";

pub const METHOD_CONNECT: &'static str = "CONNECT";

pub const PROTOCOL_CONNECT_UDP: &'static str = "connect-udp";

pub const SCHEME_HTTPS: &'static str = "https";

/// Structured-field value for Boolean true, carried in the `capsule-protocol`
/// header of every CONNECT-UDP request and response.
pub const CAPSULE_PROTOCOL_TRUE: &'static str = "?1";

/// A header field.
#[derive(Debug)]
pub struct Header {
    pub name: Vec<u8>,
    pub value: Vec<u8>,
}

/// The name and the value of a header field.
#[verifier::ext_equal]
pub struct HeaderView {
    pub name: Seq<u8>,
    pub value: Seq<u8>,
}

impl View for Header {
    type V = HeaderView;

    open spec fn view(&self) -> HeaderView {
        HeaderView { name: self.name@, value: self.value@ }
    }
}

impl Header {
    /// The header field of two byte strings.
    pub fn new(name: &[u8], value: &[u8]) -> (r: Self)
        ensures
            r@ == (HeaderView { name: name@, value: value@ }),
    {
        let n = copy_of(name, 0, name.len());
        let v = copy_of(value, 0, value.len());
        assert(n@ =~= name@);
        assert(v@ =~= value@);
        Header { name: n, value: v }
    }
}

/// The fields of a header list.
pub open spec fn fields(s: Seq<Header>) -> Seq<HeaderView> {
    s.map_values(|h: Header| h@)
}

/// A field of two texts.
pub open spec fn field(name: Seq<char>, value: Seq<char>) -> HeaderView {
    HeaderView { name: encode_utf8(name), value: encode_utf8(value) }
}

/// The value of the last field with this name.
pub open spec fn last_value(s: Seq<HeaderView>, name: Seq<u8>) -> Option<Seq<u8>>
    decreases s.len(),
{
    if s.len() == 0 {
        None
    } else if s.last().name == name {
        Some(s.last().value)
    } else {
        last_value(s.drop_last(), name)
    }
}

/// The value of the first field with this name.
pub open spec fn first_value(s: Seq<HeaderView>, name: Seq<u8>) -> Option<Seq<u8>>
    decreases s.len(),
{
    if s.len() == 0 {
        None
    } else if s[0].name == name {
        Some(s[0].value)
    } else {
        first_value(s.skip(1), name)
    }
}

fn last_value_in(headers: &[Header], name: &str) -> (r: Option<Vec<u8>>)
    ensures
        match r {
            Some(v) => last_value(fields(headers@), encode_utf8(name@)) == Some(v@),
            None => last_value(fields(headers@), encode_utf8(name@)) is None,
        },
{
    let wanted = name.as_bytes();
    let ghost all = fields(headers@);
    let mut i: usize = headers.len();
    assert(all.take(i as int) =~= all);
    while i > 0
        invariant
            i <= headers@.len(),
            all == fields(headers@),
            wanted@ == encode_utf8(name@),
            last_value(all.take(i as int), wanted@) == last_value(all, wanted@),
        decreases i,
    {
        i = i - 1;
        assert(all.take(i + 1).drop_last() =~= all.take(i as int));
        assert(all.take(i + 1).last() == headers@[i as int]@);
        if same_bytes(&headers[i].name, wanted) {
            let v = copy_of(&headers[i].value, 0, headers[i].value.len());
            assert(v@ =~= headers@[i as int].value@);
            return Some(v);
        }
    }
    None
}

fn first_value_in(headers: &[Header], name: &str) -> (r: Option<Vec<u8>>)
    ensures
        match r {
            Some(v) => first_value(fields(headers@), encode_utf8(name@)) == Some(v@),
            None => first_value(fields(headers@), encode_utf8(name@)) is None,
        },
{
    let wanted = name.as_bytes();
    let ghost all = fields(headers@);
    let mut i: usize = 0;
    assert(all.skip(0) =~= all);
    while i < headers.len()
        invariant
            i <= headers@.len(),
            all == fields(headers@),
            wanted@ == encode_utf8(name@),
            first_value(all.skip(i as int), wanted@) == first_value(all, wanted@),
        decreases headers@.len() - i,
    {
        assert(all.skip(i as int).skip(1) =~= all.skip(i + 1));
        assert(all.skip(i as int)[0] == headers@[i as int]@);
        if same_bytes(&headers[i].name, wanted) {
            let v = copy_of(&headers[i].value, 0, headers[i].value.len());
            assert(v@ =~= headers@[i as int].value@);
            return Some(v);
        }
        i = i + 1;
    }
    None
}

/// The text that the last field with this name holds.
pub open spec fn last_text(s: Seq<HeaderView>, name: Seq<char>) -> Option<Seq<char>> {
    match last_value(s, encode_utf8(name)) {
        Some(v) => if valid_utf8(v) {
            Some(decode_utf8(v))
        } else {
            None
        },
        None => None,
    }
}

fn last_text_in(headers: &[Header], name: &str) -> (r: Option<String>)
    ensures
        match r {
            Some(v) => last_text(fields(headers@), name@) == Some(v@),
            None => last_text(fields(headers@), name@) is None,
        },
{
    match last_value_in(headers, name) {
        Some(v) => text_of_utf8(v),
        None => None,
    }
}

/// Parsed pseudo-headers of a CONNECT-UDP request.
#[derive(Debug)]
pub struct ConnectRequest {
    pub authority: String,
    pub path: String,
}

/// Authority and path of the CONNECT-UDP request in a header list, or the HTTP
/// status to reply: 405 for another method, 501 for another protocol, 400 where
/// the authority or the path is missing or no text. Of a repeated pseudo-header
/// the last one counts.
pub open spec fn spec_connect_request(s: Seq<HeaderView>) -> Result<(Seq<char>, Seq<char>), u16> {
    if last_value(s, encode_utf8(METHOD@)) != Some(encode_utf8(METHOD_CONNECT@)) {
        Err(405)
    } else if last_value(s, encode_utf8(PROTOCOL@)) != Some(encode_utf8(PROTOCOL_CONNECT_UDP@)) {
        Err(501)
    } else {
        match (last_text(s, AUTHORITY@), last_text(s, PATH@)) {
            (Some(authority), Some(path)) => Ok((authority, path)),
            _ => Err(400),
        }
    }
}

fn last_is(headers: &[Header], name: &str, value: &str) -> (r: bool)
    ensures
        r == (last_value(fields(headers@), encode_utf8(name@)) == Some(encode_utf8(value@))),
{
    match last_value_in(headers, name) {
        Some(v) => same_bytes(&v, value.as_bytes()),
        None => false,
    }
}

impl ConnectRequest {
    /// Validate the request; on failure return the HTTP status to reply.
    pub fn parse(headers: &[Header]) -> (r: Result<Self, u16>)
        ensures
            match r {
                Ok(req) => spec_connect_request(fields(headers@)) == Ok::<_, u16>(
                    (req.authority@, req.path@),
                ),
                Err(status) => spec_connect_request(fields(headers@)) == Err::<
                    (Seq<char>, Seq<char>),
                    _,
                >(status),
            },
    {
        if !last_is(headers, METHOD, METHOD_CONNECT) {
            return Err(405);
        }
        if !last_is(headers, PROTOCOL, PROTOCOL_CONNECT_UDP) {
            return Err(501);
        }
        let authority = match last_text_in(headers, AUTHORITY) {
            Some(a) => a,
            None => return Err(400),
        };
        let path = match last_text_in(headers, PATH) {
            Some(p) => p,
            None => return Err(400),
        };
        Ok(ConnectRequest { authority, path })
    }
}

/// The headers of a CONNECT-UDP request.
pub open spec fn connect_fields(authority: Seq<char>, path: Seq<char>) -> Seq<HeaderView> {
    seq![
        field(METHOD@, METHOD_CONNECT@),
        field(PROTOCOL@, PROTOCOL_CONNECT_UDP@),
        field(SCHEME@, SCHEME_HTTPS@),
        field(AUTHORITY@, authority),
        field(PATH@, path),
        field(CAPSULE_PROTOCOL@, CAPSULE_PROTOCOL_TRUE@),
    ]
}

fn text_field(name: &str, value: &str) -> (r: Header)
    ensures
        r@ == field(name@, value@),
{
    Header::new(name.as_bytes(), value.as_bytes())
}

/// The headers of a CONNECT-UDP request for a path at an authority.
pub fn connect_headers(authority: &str, path: &str) -> (r: Vec<Header>)
    ensures
        fields(r@) == connect_fields(authority@, path@),
{
    let mut r: Vec<Header> = Vec::new();
    r.push(text_field(METHOD, METHOD_CONNECT));
    r.push(text_field(PROTOCOL, PROTOCOL_CONNECT_UDP));
    r.push(text_field(SCHEME, SCHEME_HTTPS));
    r.push(text_field(AUTHORITY, authority));
    r.push(text_field(PATH, path));
    r.push(text_field(CAPSULE_PROTOCOL, CAPSULE_PROTOCOL_TRUE));
    assert(fields(r@) =~= connect_fields(authority@, path@));
    r
}

/// The only field of an answer that refuses a request.
pub open spec fn status_fields(status: u16) -> Seq<HeaderView> {
    seq![field(STATUS@, decimal(status as nat))]
}

/// The headers of an answer that grants a tunnel.
pub open spec fn accept_fields() -> Seq<HeaderView> {
    seq![
        field(STATUS@, decimal(200)),
        field(CAPSULE_PROTOCOL@, CAPSULE_PROTOCOL_TRUE@),
    ]
}

fn status_field(status: u16) -> (r: Header)
    ensures
        r@ == field(STATUS@, decimal(status as nat)),
{
    let digits = decimal_u16(status);
    let text = string_of(&digits, 0, digits.len());
    assert(text@ =~= digits@);
    text_field(STATUS, text.as_str())
}

/// The headers of an answer that carries nothing but a status.
pub fn status_headers(status: u16) -> (r: Vec<Header>)
    ensures
        fields(r@) == status_fields(status),
{
    let mut r: Vec<Header> = Vec::new();
    r.push(status_field(status));
    assert(fields(r@) =~= status_fields(status));
    r
}

/// The headers of the answer that grants a tunnel.
pub fn accept_headers() -> (r: Vec<Header>)
    ensures
        fields(r@) == accept_fields(),
{
    let mut r: Vec<Header> = Vec::new();
    r.push(status_field(200));
    r.push(text_field(CAPSULE_PROTOCOL, CAPSULE_PROTOCOL_TRUE));
    assert(fields(r@) =~= accept_fields());
    r
}

/// The status in a header list: what the first `:status` field writes, where it
/// is a number of 16 bits.
pub open spec fn spec_status(s: Seq<HeaderView>) -> Option<u16> {
    match first_value(s, encode_utf8(STATUS@)) {
        Some(v) => if valid_utf8(v) {
            parse_u16(decode_utf8(v))
        } else {
            None
        },
        None => None,
    }
}

/// The status of a response.
pub fn status_of(headers: &[Header]) -> (r: Option<u16>)
    ensures
        r == spec_status(fields(headers@)),
{
    match first_value_in(headers, STATUS) {
        Some(v) => match text_of_utf8(v) {
            Some(s) => {
                let chars = chars_of(&s);
                u16_of(&chars)
            },
            None => None,
        },
        None => None,
    }
}

proof fn lemma_texts_differ(a: Seq<char>, b: Seq<char>)
    requires
        a != b,
    ensures
        encode_utf8(a) != encode_utf8(b),
{
    encode_utf8_decode_utf8(a);
    encode_utf8_decode_utf8(b);
}

/// The headers that the client sends are a valid request, for the authority and
/// the path that were put in.
pub proof fn lemma_request_roundtrip(authority: Seq<char>, path: Seq<char>)
    ensures
        spec_connect_request(connect_fields(authority, path)) == Ok::<_, u16>((authority, path)),
{
    reveal_strlit(":method");
    reveal_strlit(":protocol");
    reveal_strlit(":scheme");
    reveal_strlit(":authority");
    reveal_strlit(":path");
    reveal_strlit("capsule-protocol");
    let s = connect_fields(authority, path);
    let s5 = s.drop_last();
    let s4 = s5.drop_last();
    let s3 = s4.drop_last();
    let s2 = s3.drop_last();
    let s1 = s2.drop_last();
    assert(METHOD@[1] == 'm' && SCHEME@[1] == 's');
    assert(METHOD@.len() == 7 && PROTOCOL@.len() == 9 && SCHEME@.len() == 7);
    assert(AUTHORITY@.len() == 10 && PATH@.len() == 5 && CAPSULE_PROTOCOL@.len() == 16);
    lemma_texts_differ(METHOD@, CAPSULE_PROTOCOL@);
    lemma_texts_differ(METHOD@, PATH@);
    lemma_texts_differ(METHOD@, AUTHORITY@);
    lemma_texts_differ(METHOD@, SCHEME@);
    lemma_texts_differ(METHOD@, PROTOCOL@);
    lemma_texts_differ(PROTOCOL@, CAPSULE_PROTOCOL@);
    lemma_texts_differ(PROTOCOL@, PATH@);
    lemma_texts_differ(PROTOCOL@, AUTHORITY@);
    lemma_texts_differ(PROTOCOL@, SCHEME@);
    lemma_texts_differ(AUTHORITY@, CAPSULE_PROTOCOL@);
    lemma_texts_differ(AUTHORITY@, PATH@);
    lemma_texts_differ(PATH@, CAPSULE_PROTOCOL@);
    let m = encode_utf8(METHOD@);
    assert(last_value(s1, m) == Some(encode_utf8(METHOD_CONNECT@)));
    assert(last_value(s2, m) == last_value(s1, m));
    assert(last_value(s3, m) == last_value(s2, m));
    assert(last_value(s4, m) == last_value(s3, m));
    assert(last_value(s5, m) == last_value(s4, m));
    assert(last_value(s, m) == last_value(s5, m));
    let p = encode_utf8(PROTOCOL@);
    assert(last_value(s2, p) == Some(encode_utf8(PROTOCOL_CONNECT_UDP@)));
    assert(last_value(s3, p) == last_value(s2, p));
    assert(last_value(s4, p) == last_value(s3, p));
    assert(last_value(s5, p) == last_value(s4, p));
    assert(last_value(s, p) == last_value(s5, p));
    let a = encode_utf8(AUTHORITY@);
    assert(last_value(s4, a) == Some(encode_utf8(authority)));
    assert(last_value(s5, a) == last_value(s4, a));
    assert(last_value(s, a) == last_value(s5, a));
    let q = encode_utf8(PATH@);
    assert(last_value(s5, q) == Some(encode_utf8(path)));
    assert(last_value(s, q) == last_value(s5, q));
    encode_utf8_valid_utf8(authority);
    encode_utf8_decode_utf8(authority);
    encode_utf8_valid_utf8(path);
    encode_utf8_decode_utf8(path);
}

/// The client reads back the status that the server put into its answer.
pub proof fn lemma_status_roundtrip(status: u16)
    ensures
        spec_status(status_fields(status)) == Some(status),
        spec_status(accept_fields()) == Some(200u16),
{
    encode_utf8_valid_utf8(decimal(status as nat));
    encode_utf8_decode_utf8(decimal(status as nat));
    lemma_decimal_roundtrip(status);
    encode_utf8_valid_utf8(decimal(200));
    encode_utf8_decode_utf8(decimal(200));
    lemma_decimal_roundtrip(200);
}

/// Of the fields with a name the last one counts in a request.
pub proof fn lemma_last_value(s: Seq<HeaderView>, name: Seq<u8>, k: int)
    requires
        0 <= k < s.len(),
        s[k].name == name,
        forall|j: int| k < j < s.len() ==> (#[trigger] s[j]).name != name,
    ensures
        last_value(s, name) == Some(s[k].value),
    decreases s.len(),
{
    if k < s.len() - 1 {
        let t = s.drop_last();
        assert(s[s.len() - 1].name != name);
        assert forall|j: int| k < j < t.len() implies (#[trigger] t[j]).name != name by {
            assert(t[j] == s[j]);
        }
        lemma_last_value(t, name, k);
    }
}

/// Of the fields with a name the first one counts in a response.
pub proof fn lemma_first_value(s: Seq<HeaderView>, name: Seq<u8>, k: int)
    requires
        0 <= k < s.len(),
        s[k].name == name,
        forall|j: int| 0 <= j < k ==> (#[trigger] s[j]).name != name,
    ensures
        first_value(s, name) == Some(s[k].value),
    decreases s.len(),
{
    if k > 0 {
        let t = s.skip(1);
        assert(s[0].name != name);
        assert forall|j: int| 0 <= j < k - 1 implies (#[trigger] t[j]).name != name by {
            assert(t[j] == s[j + 1]);
        }
        lemma_first_value(t, name, k - 1);
    }
}

/// Without a field of a name there is no value for it.
pub proof fn lemma_no_value(s: Seq<HeaderView>, name: Seq<u8>)
    requires
        forall|j: int| 0 <= j < s.len() ==> (#[trigger] s[j]).name != name,
    ensures
        last_value(s, name) is None,
        first_value(s, name) is None,
    decreases s.len(),
{
    if s.len() > 0 {
        let t = s.drop_last();
        let u = s.skip(1);
        assert(s[0].name != name && s[s.len() - 1].name != name);
        assert forall|j: int| 0 <= j < t.len() implies (#[trigger] t[j]).name != name by {
            assert(t[j] == s[j]);
        }
        assert forall|j: int| 0 <= j < u.len() implies (#[trigger] u[j]).name != name by {
            assert(u[j] == s[j + 1]);
        }
        lemma_no_value(t, name);
        lemma_no_value(u, name);
    }
}

/// Which requests are valid, and the status for each that is not: the method must be
/// `CONNECT` (405), the protocol `connect-udp` (501), and authority and path must be there
/// and be text (400). A valid request is for the authority and the path that it names.
pub proof fn lemma_request_judged(s: Seq<HeaderView>)
    ensures
        ({
            let method = last_value(s, encode_utf8(":method"@));
            let protocol = last_value(s, encode_utf8(":protocol"@));
            let authority = last_value(s, encode_utf8(":authority"@));
            let path = last_value(s, encode_utf8(":path"@));
            match spec_connect_request(s) {
                Ok((a, p)) => {
                    &&& method == Some(encode_utf8("CONNECT"@))
                    &&& protocol == Some(encode_utf8("connect-udp"@))
                    &&& authority == Some(encode_utf8(a))
                    &&& path == Some(encode_utf8(p))
                },
                Err(status) => if method != Some(encode_utf8("CONNECT"@)) {
                    status == 405
                } else if protocol != Some(encode_utf8("connect-udp"@)) {
                    status == 501
                } else {
                    status == 400 && (authority is None || path is None || !valid_utf8(
                        authority->0,
                    ) || !valid_utf8(path->0))
                },
            }
        }),
{
    if let Ok((a, p)) = spec_connect_request(s) {
        decode_utf8_encode_utf8(last_value(s, encode_utf8(":authority"@))->0);
        decode_utf8_encode_utf8(last_value(s, encode_utf8(":path"@))->0);
    }
}

/// The fields of a request and of the two answers, written out.
pub proof fn lemma_fields_written_out(authority: Seq<char>, path: Seq<char>, status: u16)
    ensures
        ({
            let s = connect_fields(authority, path);
            &&& s.len() == 6
            &&& s[0].name == encode_utf8(":method"@) && s[0].value == encode_utf8("CONNECT"@)
            &&& s[1].name == encode_utf8(":protocol"@) && s[1].value == encode_utf8("connect-udp"@)
            &&& s[2].name == encode_utf8(":scheme"@) && s[2].value == encode_utf8("https"@)
            &&& s[3].name == encode_utf8(":authority"@) && s[3].value == encode_utf8(authority)
            &&& s[4].name == encode_utf8(":path"@) && s[4].value == encode_utf8(path)
            &&& s[5].name == encode_utf8("capsule-protocol"@) && s[5].value == encode_utf8("?1"@)
        }),
        100 <= status <= 999 ==> {
            let s = status_fields(status);
            &&& s.len() == 1
            &&& s[0].name == encode_utf8(":status"@)
            &&& s[0].value == encode_utf8(
                seq![
                    ('0' as int + status / 100) as char,
                    ('0' as int + status / 10 % 10) as char,
                    ('0' as int + status % 10) as char,
                ],
            )
        },
        ({
            let s = accept_fields();
            &&& s.len() == 2
            &&& s[0].name == encode_utf8(":status"@)
            &&& s[0].value == encode_utf8(seq!['2', '0', '0'])
            &&& s[1].name == encode_utf8("capsule-protocol"@) && s[1].value == encode_utf8("?1"@)
        }),
{
    if 100 <= status <= 999 {
        lemma_three_digits(status as nat);
    }
    lemma_three_digits(200);
    assert(decimal(200) =~= seq!['2', '0', '0']);
}

/// The status of a response is the number that its first `:status` field writes.
pub proof fn lemma_status_read(s: Seq<HeaderView>, k: int, text: Seq<char>)
    requires
        0 <= k < s.len(),
        s[k].name == encode_utf8(":status"@),
        forall|j: int| 0 <= j < k ==> (#[trigger] s[j]).name != encode_utf8(":status"@),
        s[k].value == encode_utf8(text),
    ensures
        spec_status(s) == parse_u16(text),
        text.len() == 3 && (forall|i: int| 0 <= i < 3 ==> '0' <= #[trigger] text[i] <= '9')
            ==> spec_status(s) == Some(
            (100 * (text[0] as int - '0' as int) + 10 * (text[1] as int - '0' as int) + (
            text[2] as int - '0' as int)) as u16,
        ),
{
    lemma_first_value(s, encode_utf8(":status"@), k);
    encode_utf8_valid_utf8(text);
    encode_utf8_decode_utf8(text);
    if text.len() == 3 && (forall|i: int| 0 <= i < 3 ==> '0' <= #[trigger] text[i] <= '9') {
        lemma_three_digits_read(text);
    }
}

/// A response without a `:status` field, or with one that is not text, has no status.
pub proof fn lemma_status_missing(s: Seq<HeaderView>)
    ensures
        (forall|j: int| 0 <= j < s.len() ==> (#[trigger] s[j]).name != encode_utf8(":status"@))
            ==> spec_status(s) is None,
        s.len() > 0 && s[0].name == encode_utf8(":status"@) && !valid_utf8(s[0].value)
            ==> spec_status(s) is None,
{
    if forall|j: int| 0 <= j < s.len() ==> (#[trigger] s[j]).name != encode_utf8(":status"@) {
        lemma_no_value(s, encode_utf8(":status"@));
    }
}

/// The fields of a list are taken one by one, in their order, as their names and values.
pub proof fn lemma_fields(s: Seq<Header>, i: int)
    requires
        0 <= i < s.len(),
    ensures
        fields(s).len() == s.len(),
        fields(s)[i].name == s[i].name@,
        fields(s)[i].value == s[i].value@,
{
}

/// A response whose first `:status` field is not text has no status.
pub proof fn lemma_status_not_text(s: Seq<HeaderView>, k: int)
    requires
        0 <= k < s.len(),
        s[k].name == encode_utf8(":status"@),
        forall|j: int| 0 <= j < k ==> (#[trigger] s[j]).name != encode_utf8(":status"@),
        !valid_utf8(s[k].value),
    ensures
        spec_status(s) is None,
{
    lemma_first_value(s, encode_utf8(":status"@), k);
}

} // verus!
