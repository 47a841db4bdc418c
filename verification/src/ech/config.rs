//! The `ECHConfig` wire format.
//!
//! ```text
//! version (2) | length (2) | contents
//! contents: config id (1) | KEM id (2) | public key <2> | cipher suites <2>
//!           | maximum name length (1) | public name <1> | extensions <2>
//! ```
//!
//! `<n>` marks a field with a length prefix of `n` bytes. Extensions are neither
//! written nor accepted.

use vstd::prelude::*;
use vstd::slice::slice_subrange;
use vstd::utf8::*;

use crate::bytes::be_bytes;
use crate::bytes::be_value;
use crate::bytes::byte_values;
use crate::bytes::copy_of;
use crate::bytes::lemma_be_bytes_at;
use crate::bytes::lemma_be_bytes_len;
use crate::bytes::lemma_be_roundtrip;
use crate::bytes::lemma_be_value_bytes;
use crate::bytes::lemma_be_value_written_out;
use crate::bytes::lemma_byte_values;
use crate::bytes::push_all;
use crate::bytes::push_be;
use crate::bytes::read_be;
use crate::text::text_of_utf8;

verus! {

/// DHKEM(X25519, HKDF-SHA256).
pub const HPKE_KEM_DHKEM_X25519: u16 = 0x0020;

/// HKDF-SHA256.
pub const HPKE_KDF_HKDF_SHA256: u16 = 0x0001;

/// AES-128-GCM.
pub const HPKE_AEAD_AES_128_GCM: u16 = 0x0001;

/// The version of the configurations that this crate reads and writes.
pub const ECH_VERSION: u16 = 0xfe0d;

/// An HPKE cipher suite.
#[derive(Clone, Copy, Debug, PartialEq, Eq, Structural)]
pub struct CipherSuite {
    pub kdf_id: u16,
    pub aead_id: u16,
}

/// An ECH configuration.
#[derive(Debug)]
pub struct EchConfig {
    pub config_id: u8,
    pub kem_id: u16,
    pub public_key: Vec<u8>,
    pub cipher_suites: Vec<CipherSuite>,
    pub maximum_name_length: u8,
    pub public_name: String,
}

/// What an ECH configuration holds.
pub struct EchConfigView {
    pub config_id: u8,
    pub kem_id: u16,
    pub public_key: Seq<u8>,
    pub cipher_suites: Seq<CipherSuite>,
    pub maximum_name_length: u8,
    pub public_name: Seq<char>,
}

/// The bytes are no ECH configuration of the supported version.
#[derive(Clone, Copy, Debug, PartialEq, Eq, Structural)]
pub struct MalformedConfig;

/// `body` behind its length in one byte.
pub open spec fn vec1(body: Seq<u8>) -> Seq<u8> {
    be_bytes(body.len(), 1) + body
}

/// `body` behind its length in two bytes.
pub open spec fn vec2(body: Seq<u8>) -> Seq<u8> {
    be_bytes(body.len(), 2) + body
}

/// The field behind a length of `n` bytes at the front of `b`, and what follows it.
pub open spec fn take_field(b: Seq<u8>, n: nat) -> Option<(Seq<u8>, Seq<u8>)> {
    if b.len() < n || b.len() < n + be_value(b.take(n as int)) {
        None
    } else {
        let len = be_value(b.take(n as int));
        Some((b.subrange(n as int, (n + len) as int), b.skip((n + len) as int)))
    }
}

/// The wire form of a list of cipher suites.
pub open spec fn suites_bytes(s: Seq<CipherSuite>) -> Seq<u8>
    decreases s.len(),
{
    if s.len() == 0 {
        Seq::empty()
    } else {
        suites_bytes(s.drop_last()) + be_bytes(s.last().kdf_id as nat, 2) + be_bytes(
            s.last().aead_id as nat,
            2,
        )
    }
}

/// The cipher suites that `b` holds, four bytes each.
pub open spec fn suites_of(b: Seq<u8>) -> Seq<CipherSuite> {
    Seq::new(
        b.len() / 4,
        |i: int|
            CipherSuite {
                kdf_id: be_value(b.subrange(4 * i, 4 * i + 2)) as u16,
                aead_id: be_value(b.subrange(4 * i + 2, 4 * i + 4)) as u16,
            },
    )
}

/// The contents of a configuration on the wire.
#[verifier::opaque]
pub open spec fn contents_bytes(c: EchConfigView) -> Seq<u8> {
    seq![c.config_id] + be_bytes(c.kem_id as nat, 2) + vec2(c.public_key) + vec2(
        suites_bytes(c.cipher_suites),
    ) + seq![c.maximum_name_length] + vec1(encode_utf8(c.public_name)) + vec2(Seq::empty())
}

/// A configuration on the wire.
pub open spec fn config_bytes(c: EchConfigView) -> Seq<u8> {
    be_bytes(ECH_VERSION as nat, 2) + vec2(contents_bytes(c))
}

/// Whether the format can hold the configuration: key, cipher suites and name are
/// not empty and every length fits in its prefix.
pub open spec fn fits(c: EchConfigView) -> bool {
    &&& c.public_key.len() > 0
    &&& c.cipher_suites.len() > 0
    &&& 0 < encode_utf8(c.public_name).len() < 0x100
    &&& 11 + c.public_key.len() + 4 * c.cipher_suites.len() + encode_utf8(c.public_name).len()
        < 0x1_0000
}

/// The configuration whose contents `c` is.
#[verifier::opaque]
pub open spec fn decode_contents(c: Seq<u8>) -> Option<EchConfigView> {
    if c.len() < 3 {
        None
    } else {
        match take_field(c.skip(3), 2) {
            None => None,
            Some((key, r1)) => match take_field(r1, 2) {
                None => None,
                Some((suites, r2)) => if r2.len() < 1 {
                    None
                } else {
                    match take_field(r2.skip(1), 1) {
                        None => None,
                        Some((name, r3)) => match take_field(r3, 2) {
                            None => None,
                            Some((extensions, r4)) => if key.len() == 0 || suites.len() == 0
                                || suites.len() % 4 != 0 || name.len() == 0 || !valid_utf8(name)
                                || extensions.len() != 0 || r4.len() != 0 {
                                None
                            } else {
                                Some(
                                    EchConfigView {
                                        config_id: c[0],
                                        kem_id: be_value(c.subrange(1, 3)) as u16,
                                        public_key: key,
                                        cipher_suites: suites_of(suites),
                                        maximum_name_length: r2[0],
                                        public_name: decode_utf8(name),
                                    },
                                )
                            },
                        },
                    }
                },
            },
        }
    }
}

/// The configuration that `b` holds.
pub open spec fn decode_config(b: Seq<u8>) -> Option<EchConfigView> {
    if b.len() < 2 || be_value(b.take(2)) != ECH_VERSION as nat {
        None
    } else {
        match take_field(b.skip(2), 2) {
            None => None,
            Some((contents, rest)) => if rest.len() != 0 {
                None
            } else {
                decode_contents(contents)
            },
        }
    }
}

/// The configurations `s` one after the other on the wire.
pub open spec fn configs_bytes(s: Seq<EchConfigView>) -> Seq<u8>
    decreases s.len(),
{
    if s.len() == 0 {
        Seq::empty()
    } else {
        configs_bytes(s.drop_last()) + config_bytes(s.last())
    }
}

/// The field behind a length of `n` bytes at the front of `b`, and what follows it.
fn field(b: &[u8], n: usize) -> (r: Option<(&[u8], &[u8])>)
    requires
        n <= 2,
    ensures
        match r {
            Some((f, rest)) => take_field(b@, n as nat) == Some((f@, rest@)),
            None => take_field(b@, n as nat) is None,
        },
{
    let end: usize = b.len();
    if end < n {
        return None;
    }
    let len: u64 = read_be(b, 0, n);
    proof {
        assert(b@.subrange(0, n as int) =~= b@.take(n as int));
        lemma_be_value_bytes(b@.take(n as int));
        lemma_byte_values();
    }
    if len > (end - n) as u64 {
        return None;
    }
    let cut: usize = n + len as usize;
    let f = slice_subrange(b, n, cut);
    let rest = slice_subrange(b, cut, end);
    assert(rest@ =~= b@.skip(cut as int));
    Some((f, rest))
}

impl View for EchConfig {
    type V = EchConfigView;

    open spec fn view(&self) -> EchConfigView {
        EchConfigView {
            config_id: self.config_id,
            kem_id: self.kem_id,
            public_key: self.public_key@,
            cipher_suites: self.cipher_suites@,
            maximum_name_length: self.maximum_name_length,
            public_name: self.public_name@,
        }
    }
}

impl EchConfig {
    /// The configuration that `bytes` holds.
    pub fn decode(bytes: &[u8]) -> (r: Result<Self, MalformedConfig>)
        ensures
            match r {
                Ok(c) => decode_config(bytes@) == Some(c@),
                Err(_) => decode_config(bytes@) is None,
            },
    {
        let end: usize = bytes.len();
        if end < 2 {
            return Err(MalformedConfig);
        }
        assert(bytes@.subrange(0, 2) =~= bytes@.take(2));
        if read_be(bytes, 0, 2) != ECH_VERSION as u64 {
            return Err(MalformedConfig);
        }
        let body = slice_subrange(bytes, 2, end);
        assert(body@ =~= bytes@.skip(2));
        match field(body, 2) {
            None => Err(MalformedConfig),
            Some((contents, rest)) => {
                if rest.len() != 0 {
                    return Err(MalformedConfig);
                }
                match Self::decode_inner(contents) {
                    None => Err(MalformedConfig),
                    Some(c) => Ok(c),
                }
            },
        }
    }

    fn decode_inner(c: &[u8]) -> (r: Option<Self>)
        ensures
            match r {
                Some(v) => decode_contents(c@) == Some(v@),
                None => decode_contents(c@) is None,
            },
    {
        reveal(decode_contents);
        let end: usize = c.len();
        if end < 3 {
            return None;
        }
        let config_id: u8 = c[0];
        let kem: u64 = read_be(c, 1, 2);
        proof {
            lemma_be_value_bytes(c@.subrange(1, 3));
            lemma_byte_values();
        }
        let r0 = slice_subrange(c, 3, end);
        assert(r0@ =~= c@.skip(3));
        let (key, r1) = match field(r0, 2) {
            None => return None,
            Some(f) => f,
        };
        let (suites, r2) = match field(r1, 2) {
            None => return None,
            Some(f) => f,
        };
        let n2: usize = r2.len();
        if n2 < 1 {
            return None;
        }
        let maximum_name_length: u8 = r2[0];
        let r2b = slice_subrange(r2, 1, n2);
        assert(r2b@ =~= r2@.skip(1));
        let (name, r3) = match field(r2b, 1) {
            None => return None,
            Some(f) => f,
        };
        let (extensions, r4) = match field(r3, 2) {
            None => return None,
            Some(f) => f,
        };
        if key.len() == 0 || suites.len() == 0 || suites.len() % 4 != 0 || name.len() == 0
            || extensions.len() != 0 || r4.len() != 0 {
            return None;
        }
        let name_bytes = copy_of(name, 0, name.len());
        assert(name_bytes@ =~= name@);
        let public_name = match text_of_utf8(name_bytes) {
            None => return None,
            Some(s) => s,
        };
        let public_key = copy_of(key, 0, key.len());
        assert(public_key@ =~= key@);
        let cipher_suites = suites_in(suites);
        Some(
            EchConfig {
                config_id,
                kem_id: kem as u16,
                public_key,
                cipher_suites,
                maximum_name_length,
                public_name,
            },
        )
    }

    /// Whether the wire format can hold this configuration.
    pub fn encodable(&self) -> (r: bool)
        ensures
            r == fits(self@),
    {
        let name: usize = self.public_name.as_str().as_bytes().len();
        let key: usize = self.public_key.len();
        let suites: usize = self.cipher_suites.len();
        if key == 0 || suites == 0 || name == 0 || name >= 0x100 || key >= 0x1_0000 || suites
            >= 0x1_0000 {
            return false;
        }
        11 + key + 4 * suites + name < 0x1_0000
    }

    /// The wire form of this configuration.
    pub fn encode(&self) -> (r: Vec<u8>)
        requires
            fits(self@),
        ensures
            r@ == config_bytes(self@),
    {
        reveal(contents_bytes);
        let name = self.public_name.as_str().as_bytes();
        let mut body: Vec<u8> = Vec::new();
        body.push(self.config_id);
        push_be(&mut body, self.kem_id as u64, 2);
        push_be(&mut body, self.public_key.len() as u64, 2);
        push_all(&mut body, &self.public_key);
        let suites = suites_out(&self.cipher_suites);
        push_be(&mut body, suites.len() as u64, 2);
        push_all(&mut body, &suites);
        body.push(self.maximum_name_length);
        push_be(&mut body, name.len() as u64, 1);
        push_all(&mut body, name);
        push_be(&mut body, 0, 2);
        assert(body@ =~= contents_bytes(self@));
        let mut out: Vec<u8> = Vec::new();
        push_be(&mut out, ECH_VERSION as u64, 2);
        push_be(&mut out, body.len() as u64, 2);
        push_all(&mut out, &body);
        assert(out@ =~= config_bytes(self@));
        out
    }
}

impl Clone for EchConfig {
    fn clone(&self) -> (r: Self)
        ensures
            r@ == self@,
    {
        let public_key = self.public_key.clone();
        assert(public_key@ =~= self.public_key@);
        let cipher_suites = self.cipher_suites.clone();
        assert(cipher_suites@ =~= self.cipher_suites@);
        EchConfig {
            config_id: self.config_id,
            kem_id: self.kem_id,
            public_key,
            cipher_suites,
            maximum_name_length: self.maximum_name_length,
            public_name: self.public_name.clone(),
        }
    }
}

/// The cipher suites that `b` holds.
fn suites_in(b: &[u8]) -> (r: Vec<CipherSuite>)
    requires
        b@.len() % 4 == 0,
    ensures
        r@ == suites_of(b@),
{
    let end: usize = b.len();
    let mut r: Vec<CipherSuite> = Vec::new();
    let mut i: usize = 0;
    while i < end / 4
        invariant
            end == b@.len(),
            i <= end / 4,
            r@.len() == i,
            forall|k: int| 0 <= k < i ==> r@[k] == suites_of(b@)[k],
        decreases end / 4 - i,
    {
        let kdf: u64 = read_be(b, 4 * i, 2);
        let aead: u64 = read_be(b, 4 * i + 2, 2);
        proof {
            lemma_be_value_bytes(b@.subrange(4 * i, 4 * i + 2));
            lemma_be_value_bytes(b@.subrange(4 * i + 2, 4 * i + 4));
            lemma_byte_values();
        }
        r.push(CipherSuite { kdf_id: kdf as u16, aead_id: aead as u16 });
        i = i + 1;
    }
    assert(r@ =~= suites_of(b@));
    r
}

/// The wire form of a list of cipher suites.
fn suites_out(s: &Vec<CipherSuite>) -> (r: Vec<u8>)
    ensures
        r@ == suites_bytes(s@),
{
    let mut r: Vec<u8> = Vec::new();
    let mut i: usize = 0;
    while i < s.len()
        invariant
            i <= s@.len(),
            r@ == suites_bytes(s@.take(i as int)),
        decreases s@.len() - i,
    {
        push_be(&mut r, s[i].kdf_id as u64, 2);
        push_be(&mut r, s[i].aead_id as u64, 2);
        assert(s@.take(i + 1).drop_last() =~= s@.take(i as int));
        i = i + 1;
    }
    assert(s@.take(i as int) =~= s@);
    r
}

/// What the configurations in `s` hold.
pub open spec fn views(s: Seq<EchConfig>) -> Seq<EchConfigView> {
    Seq::new(s.len(), |i: int| s[i]@)
}

/// The first configurations are no longer on the wire than all.
pub proof fn lemma_configs_grow(s: Seq<EchConfigView>, k: int)
    requires
        0 <= k <= s.len(),
    ensures
        configs_bytes(s.take(k)).len() <= configs_bytes(s).len(),
    decreases s.len(),
{
    if k == s.len() {
        assert(s.take(k) =~= s);
    } else {
        assert(s.drop_last().take(k) =~= s.take(k));
        lemma_configs_grow(s.drop_last(), k);
    }
}

/// Whether one configuration list can hold all of `s`.
pub open spec fn list_fits(s: Seq<EchConfigView>) -> bool {
    &&& forall|i: int| 0 <= i < s.len() ==> fits(#[trigger] s[i])
    &&& configs_bytes(s).len() < 0x1_0000
}

/// The wire form of a list of configurations: the configurations one after the
/// other behind their total length.
pub fn encode_list(configs: &[EchConfig]) -> (r: Vec<u8>)
    requires
        list_fits(views(configs@)),
    ensures
        r@ == vec2(configs_bytes(views(configs@))),
{
    let ghost all = views(configs@);
    let mut body: Vec<u8> = Vec::new();
    let mut i: usize = 0;
    while i < configs.len()
        invariant
            i <= configs@.len(),
            all == views(configs@),
            list_fits(all),
            body@ == configs_bytes(all.take(i as int)),
        decreases configs@.len() - i,
    {
        assert(fits(all[i as int]));
        let one = configs[i].encode();
        push_all(&mut body, &one);
        assert(all.take(i + 1).drop_last() =~= all.take(i as int));
        i = i + 1;
    }
    assert(all.take(i as int) =~= all);
    let mut out: Vec<u8> = Vec::new();
    push_be(&mut out, body.len() as u64, 2);
    push_all(&mut out, &body);
    assert(out@ =~= vec2(configs_bytes(all)));
    out
}

/// A field that was written is read back, with what follows it.
proof fn lemma_field_written(body: Seq<u8>, rest: Seq<u8>, n: nat)
    requires
        body.len() < byte_values(n),
    ensures
        take_field(be_bytes(body.len(), n) + body + rest, n) == Some((body, rest)),
{
    let p = be_bytes(body.len(), n);
    let b = p + body + rest;
    lemma_be_bytes_len(body.len(), n);
    lemma_be_roundtrip(body.len(), n);
    assert(b.take(n as int) =~= p);
    let len = body.len();
    assert(b.subrange(n as int, (n + len) as int) =~= body);
    assert(b.skip((n + len) as int) =~= rest);
}

/// A field that was read is what would be written.
proof fn lemma_field_read(b: Seq<u8>, n: nat)
    ensures
        take_field(b, n) matches Some((body, rest)) ==> {
            &&& b == be_bytes(body.len(), n) + body + rest
            &&& body.len() < byte_values(n)
        },
{
    if let Some((body, rest)) = take_field(b, n) {
        let p = b.take(n as int);
        lemma_be_value_bytes(p);
        assert(b =~= p + body + rest);
    }
}

/// Four bytes for each suite.
proof fn lemma_suites_len(s: Seq<CipherSuite>)
    ensures
        suites_bytes(s).len() == 4 * s.len(),
    decreases s.len(),
{
    if s.len() > 0 {
        lemma_suites_len(s.drop_last());
        lemma_be_bytes_len(s.last().kdf_id as nat, 2);
        lemma_be_bytes_len(s.last().aead_id as nat, 2);
    }
}

proof fn lemma_suites_written(s: Seq<CipherSuite>)
    ensures
        suites_of(suites_bytes(s)) == s,
    decreases s.len(),
{
    let b = suites_bytes(s);
    lemma_suites_len(s);
    if s.len() > 0 {
        let t = s.drop_last();
        let bt = suites_bytes(t);
        lemma_suites_len(t);
        lemma_suites_written(t);
        let k = be_bytes(s.last().kdf_id as nat, 2);
        let a = be_bytes(s.last().aead_id as nat, 2);
        lemma_be_bytes_len(s.last().kdf_id as nat, 2);
        lemma_be_bytes_len(s.last().aead_id as nat, 2);
        lemma_byte_values();
        lemma_be_roundtrip(s.last().kdf_id as nat, 2);
        lemma_be_roundtrip(s.last().aead_id as nat, 2);
        assert(b =~= bt + k + a);
        let n = t.len() as int;
        assert forall|i: int| 0 <= i < s.len() implies suites_of(b)[i] == s[i] by {
            if i < n {
                assert(b.subrange(4 * i, 4 * i + 2) =~= bt.subrange(4 * i, 4 * i + 2));
                assert(b.subrange(4 * i + 2, 4 * i + 4) =~= bt.subrange(4 * i + 2, 4 * i + 4));
                assert(suites_of(bt)[i] == t[i]);
            } else {
                assert(b.subrange(4 * n, 4 * n + 2) =~= k);
                assert(b.subrange(4 * n + 2, 4 * n + 4) =~= a);
            }
        }
    }
    assert(suites_of(b) =~= s);
}

proof fn lemma_suites_read(b: Seq<u8>)
    requires
        b.len() % 4 == 0,
    ensures
        suites_bytes(suites_of(b)) == b,
    decreases b.len(),
{
    let s = suites_of(b);
    if b.len() > 0 {
        let n = b.len() - 4;
        let bt = b.take(n);
        lemma_suites_read(bt);
        assert(s.drop_last() =~= suites_of(bt)) by {
            assert forall|i: int| 0 <= i < n / 4 implies s[i] == suites_of(bt)[i] by {
                assert(b.subrange(4 * i, 4 * i + 2) =~= bt.subrange(4 * i, 4 * i + 2));
                assert(b.subrange(4 * i + 2, 4 * i + 4) =~= bt.subrange(4 * i + 2, 4 * i + 4));
            }
        }
        let k = b.subrange(n, n + 2);
        let a = b.subrange(n + 2, n + 4);
        lemma_be_value_bytes(k);
        lemma_be_value_bytes(a);
        lemma_byte_values();
        assert(4 * (s.len() - 1) == n);
        assert(b =~= bt + k + a);
    } else {
        assert(b =~= Seq::empty());
    }
}

/// The length of a configuration on the wire.
pub proof fn lemma_config_bytes_len(c: EchConfigView)
    requires
        fits(c),
    ensures
        config_bytes(c).len() == 15 + c.public_key.len() + 4 * c.cipher_suites.len() + encode_utf8(
            c.public_name,
        ).len(),
{
    reveal(contents_bytes);
    lemma_suites_len(c.cipher_suites);
    lemma_be_bytes_len(c.kem_id as nat, 2);
    lemma_be_bytes_len(ECH_VERSION as nat, 2);
    lemma_be_bytes_len(c.public_key.len(), 2);
    lemma_be_bytes_len(suites_bytes(c.cipher_suites).len(), 2);
    lemma_be_bytes_len(encode_utf8(c.public_name).len(), 1);
    lemma_be_bytes_len(0, 2);
    lemma_be_bytes_len(contents_bytes(c).len(), 2);
}

/// The fields of contents are found one behind the other.
proof fn lemma_fields_found(head: Seq<u8>, key: Seq<u8>, suites: Seq<u8>, m: u8, name: Seq<u8>)
    requires
        head.len() == 3,
        key.len() < 0x1_0000,
        suites.len() < 0x1_0000,
        name.len() < 0x100,
    ensures
        ({
            let e = Seq::<u8>::empty();
            let t3 = vec2(e);
            let t2 = vec1(name) + t3;
            let t1 = seq![m] + t2;
            let t0 = vec2(suites) + t1;
            let contents = head + vec2(key) + vec2(suites) + seq![m] + vec1(name) + t3;
            &&& take_field(contents.skip(3), 2) == Some((key, t0))
            &&& take_field(t0, 2) == Some((suites, t1))
            &&& t1.len() >= 1 && t1[0] == m && t1.skip(1) == t2
            &&& take_field(t2, 1) == Some((name, t3))
            &&& take_field(t3, 2) == Some((e, e))
            &&& contents.take(3) == head
        }),
{
    let e = Seq::<u8>::empty();
    let t3 = vec2(e);
    let t2 = vec1(name) + t3;
    let t1 = seq![m] + t2;
    let t0 = vec2(suites) + t1;
    let contents = head + vec2(key) + vec2(suites) + seq![m] + vec1(name) + t3;
    lemma_byte_values();
    lemma_field_written(key, t0, 2);
    lemma_field_written(suites, t1, 2);
    lemma_field_written(name, t3, 1);
    lemma_field_written(e, e, 2);
    assert(contents.skip(3) =~= be_bytes(key.len(), 2) + key + t0);
    assert(t0 =~= be_bytes(suites.len(), 2) + suites + t1);
    assert(t1.skip(1) =~= t2);
    assert(t2 =~= be_bytes(name.len(), 1) + name + t3);
    assert(t3 =~= be_bytes(e.len(), 2) + e + e);
    assert(contents.take(3) =~= head);
}

/// Decoding encoded contents gives the configuration back.
proof fn lemma_contents_roundtrip(c: EchConfigView)
    requires
        fits(c),
    ensures
        decode_contents(contents_bytes(c)) == Some(c),
{
    reveal(contents_bytes);
    reveal(decode_contents);
    let kem = be_bytes(c.kem_id as nat, 2);
    let head = seq![c.config_id] + kem;
    let suites = suites_bytes(c.cipher_suites);
    let name = encode_utf8(c.public_name);
    let contents = contents_bytes(c);
    lemma_suites_len(c.cipher_suites);
    lemma_suites_written(c.cipher_suites);
    lemma_byte_values();
    lemma_be_bytes_len(c.kem_id as nat, 2);
    lemma_be_roundtrip(c.kem_id as nat, 2);
    encode_utf8_valid_utf8(c.public_name);
    encode_utf8_decode_utf8(c.public_name);
    lemma_fields_found(head, c.public_key, suites, c.maximum_name_length, name);
    assert(contents[0] == contents.take(3)[0]);
    assert(contents.subrange(1, 3) =~= contents.take(3).skip(1));
    assert(head.skip(1) =~= kem);
}

/// Decoding an encoded configuration gives the configuration back.
pub proof fn lemma_config_roundtrip(c: EchConfigView)
    requires
        fits(c),
    ensures
        decode_config(config_bytes(c)) == Some(c),
{
    let e = Seq::<u8>::empty();
    let contents = contents_bytes(c);
    let b = config_bytes(c);
    lemma_byte_values();
    lemma_config_bytes_len(c);
    lemma_contents_roundtrip(c);
    lemma_be_bytes_len(ECH_VERSION as nat, 2);
    lemma_be_bytes_len(contents.len(), 2);
    lemma_be_roundtrip(ECH_VERSION as nat, 2);
    assert(b.take(2) =~= be_bytes(ECH_VERSION as nat, 2));
    lemma_field_written(contents, e, 2);
    assert(b.skip(2) =~= be_bytes(contents.len(), 2) + contents + e);
}

/// Contents that decode are what would be written.
proof fn lemma_contents_canonical(contents: Seq<u8>)
    ensures
        decode_contents(contents) matches Some(c) ==> {
            &&& contents_bytes(c) == contents
            &&& c.public_key.len() > 0
            &&& c.cipher_suites.len() > 0
            &&& 0 < encode_utf8(c.public_name).len() < 0x100
            &&& contents.len() == 11 + c.public_key.len() + 4 * c.cipher_suites.len()
                + encode_utf8(c.public_name).len()
        },
{
    reveal(contents_bytes);
    reveal(decode_contents);
    if let Some(c) = decode_contents(contents) {
        lemma_byte_values();
        let e = Seq::<u8>::empty();
        let head = contents.subrange(1, 3);
        let r0 = contents.skip(3);
        lemma_be_value_bytes(head);
        lemma_field_read(r0, 2);
        let (key, r1) = take_field(r0, 2)->0;
        lemma_field_read(r1, 2);
        let (suites, r2) = take_field(r1, 2)->0;
        let r2b = r2.skip(1);
        lemma_field_read(r2b, 1);
        let (name, r3) = take_field(r2b, 1)->0;
        lemma_field_read(r3, 2);
        let (extensions, r4) = take_field(r3, 2)->0;
        assert(extensions =~= e);
        assert(r4 =~= e);
        lemma_suites_read(suites);
        lemma_suites_len(c.cipher_suites);
        decode_utf8_encode_utf8(name);
        lemma_be_bytes_len(key.len(), 2);
        lemma_be_bytes_len(suites.len(), 2);
        lemma_be_bytes_len(name.len(), 1);
        lemma_be_bytes_len(0, 2);
        lemma_contents_glued(contents, head, key, suites, name, r1, r2, r3);
    }
}

/// The parts of the contents, put together again.
proof fn lemma_contents_glued(
    contents: Seq<u8>,
    head: Seq<u8>,
    key: Seq<u8>,
    suites: Seq<u8>,
    name: Seq<u8>,
    r1: Seq<u8>,
    r2: Seq<u8>,
    r3: Seq<u8>,
)
    requires
        contents.len() >= 3,
        head == contents.subrange(1, 3),
        contents.skip(3) == be_bytes(key.len(), 2) + key + r1,
        r1 == be_bytes(suites.len(), 2) + suites + r2,
        r2.len() > 0,
        r2.skip(1) == be_bytes(name.len(), 1) + name + r3,
        r3 == be_bytes(0, 2) + Seq::<u8>::empty() + Seq::<u8>::empty(),
    ensures
        contents == seq![contents[0]] + head + vec2(key) + vec2(suites) + seq![r2[0]] + vec1(name)
            + vec2(Seq::empty()),
        contents.len() == 3 + vec2(key).len() + vec2(suites).len() + 1 + vec1(name).len() + vec2(
            Seq::empty(),
        ).len(),
{
    let e = Seq::<u8>::empty();
    assert(r3 =~= vec2(e));
    let t2 = vec1(name) + r3;
    assert(r2.skip(1) =~= t2);
    assert(r2 =~= seq![r2[0]] + t2);
    let t1 = vec2(suites) + r2;
    assert(r1 =~= t1);
    let t0 = vec2(key) + r1;
    assert(contents.skip(3) =~= t0);
    assert(contents =~= seq![contents[0]] + head + t0);
    assert(contents =~= seq![contents[0]] + head + vec2(key) + vec2(suites) + seq![r2[0]] + vec1(
        name,
    ) + vec2(e));
}

/// A configuration that decodes fits the format, and encoding it gives the bytes
/// back: the wire form of a configuration is unique.
pub proof fn lemma_config_canonical(b: Seq<u8>)
    ensures
        decode_config(b) matches Some(c) ==> fits(c) && config_bytes(c) == b,
{
    if let Some(c) = decode_config(b) {
        lemma_byte_values();
        let e = Seq::<u8>::empty();
        lemma_be_value_bytes(b.take(2));
        lemma_field_read(b.skip(2), 2);
        let (contents, rest) = take_field(b.skip(2), 2)->0;
        assert(rest =~= e);
        lemma_contents_canonical(contents);
        assert(b =~= b.take(2) + b.skip(2));
        assert(b =~= config_bytes(c));
    }
}

/// A configuration on the wire, byte by byte: version 0xfe0d, the length of what follows,
/// the configuration id, the KEM id, the public key, the cipher suites, the maximum name
/// length, the public name, and an empty list of extensions.
pub proof fn lemma_config_written_out(c: EchConfigView)
    requires
        fits(c),
    ensures
        ({
            let b = config_bytes(c);
            let k = c.public_key.len() as int;
            let n = 4 * c.cipher_suites.len() as int;
            let name = encode_utf8(c.public_name);
            let m = name.len() as int;
            &&& b.len() == 15 + k + n + m
            &&& b[0] == 0xfe && b[1] == 0x0d
            &&& b[2] * 0x100 + b[3] == b.len() - 4
            &&& b[4] == c.config_id
            &&& b[5] * 0x100 + b[6] == c.kem_id
            &&& b[7] * 0x100 + b[8] == k
            &&& b.subrange(9, 9 + k) == c.public_key
            &&& b[9 + k] * 0x100 + b[10 + k] == n
            &&& b.subrange(11 + k, 11 + k + n) == suites_bytes(c.cipher_suites)
            &&& b[11 + k + n] == c.maximum_name_length
            &&& b[12 + k + n] == m
            &&& b.subrange(13 + k + n, 13 + k + n + m) == name
            &&& b[13 + k + n + m] == 0 && b[14 + k + n + m] == 0
        }),
{
    let k = c.public_key.len() as int;
    let n = 4 * c.cipher_suites.len() as int;
    let name = encode_utf8(c.public_name);
    let suites = suites_bytes(c.cipher_suites);
    lemma_config_bytes_len(c);
    lemma_suites_len(c.cipher_suites);
    lemma_be_bytes_len(ECH_VERSION as nat, 2);
    lemma_be_bytes_len(contents_bytes(c).len(), 2);
    reveal(contents_bytes);
    lemma_two_bytes(ECH_VERSION as nat);
    lemma_two_bytes(contents_bytes(c).len());
    lemma_two_bytes(c.kem_id as nat);
    lemma_two_bytes(c.public_key.len());
    lemma_two_bytes(suites.len());
    lemma_two_bytes(0);
    lemma_one_byte(name.len());
    lemma_config_pieces(
        be_bytes(ECH_VERSION as nat, 2),
        be_bytes(contents_bytes(c).len(), 2),
        c.config_id,
        be_bytes(c.kem_id as nat, 2),
        be_bytes(c.public_key.len(), 2),
        c.public_key,
        be_bytes(suites.len(), 2),
        suites,
        c.maximum_name_length,
        be_bytes(name.len(), 1),
        name,
        be_bytes(0, 2),
        config_bytes(c),
    );
}

proof fn lemma_two_bytes(n: nat)
    requires
        n < 0x1_0000,
    ensures
        be_bytes(n, 2).len() == 2,
        be_bytes(n, 2)[0] == n / 0x100,
        be_bytes(n, 2)[1] == n % 0x100,
{
    lemma_byte_values();
    lemma_be_bytes_at(n, 2, 0);
    lemma_be_bytes_at(n, 2, 1);
    assert(n / 256 % 256 == n / 256);
    let one = byte_values(0);
    assert(n / one == n) by (nonlinear_arith)
        requires
            one == 1,
    ;
}

proof fn lemma_one_byte(n: nat)
    requires
        n < 0x100,
    ensures
        be_bytes(n, 1).len() == 1,
        be_bytes(n, 1)[0] == n,
{
    lemma_byte_values();
    lemma_be_bytes_at(n, 1, 0);
    let one = byte_values(0);
    assert(n / one == n) by (nonlinear_arith)
        requires
            one == 1,
    ;
}

/// Where the pieces of a configuration stand.
proof fn lemma_config_pieces(
    version: Seq<u8>,
    length: Seq<u8>,
    id: u8,
    kem: Seq<u8>,
    key_len: Seq<u8>,
    key: Seq<u8>,
    suites_len: Seq<u8>,
    suites: Seq<u8>,
    max: u8,
    name_len: Seq<u8>,
    name: Seq<u8>,
    none: Seq<u8>,
    b: Seq<u8>,
)
    requires
        version.len() == 2,
        length.len() == 2,
        kem.len() == 2,
        key_len.len() == 2,
        suites_len.len() == 2,
        name_len.len() == 1,
        none.len() == 2,
        b == version + (length + (seq![id] + kem + (key_len + key) + (suites_len + suites)
            + seq![max] + (name_len + name) + (none + Seq::<u8>::empty()))),
    ensures
        ({
            let k = key.len() as int;
            let n = suites.len() as int;
            let m = name.len() as int;
            &&& b.len() == 15 + k + n + m
            &&& b[0] == version[0] && b[1] == version[1]
            &&& b[2] == length[0] && b[3] == length[1]
            &&& b[4] == id
            &&& b[5] == kem[0] && b[6] == kem[1]
            &&& b[7] == key_len[0] && b[8] == key_len[1]
            &&& b.subrange(9, 9 + k) == key
            &&& b[9 + k] == suites_len[0] && b[10 + k] == suites_len[1]
            &&& b.subrange(11 + k, 11 + k + n) == suites
            &&& b[11 + k + n] == max
            &&& b[12 + k + n] == name_len[0]
            &&& b.subrange(13 + k + n, 13 + k + n + m) == name
            &&& b[13 + k + n + m] == none[0] && b[14 + k + n + m] == none[1]
        }),
{
    let k = key.len() as int;
    let n = suites.len() as int;
    let m = name.len() as int;
    assert(b.subrange(9, 9 + k) =~= key);
    assert(b.subrange(11 + k, 11 + k + n) =~= suites);
    assert(b.subrange(13 + k + n, 13 + k + n + m) =~= name);
}

/// Cipher suites on the wire take four bytes each: the KDF id and the AEAD id.
pub proof fn lemma_suites_written_out(s: Seq<CipherSuite>, i: int)
    requires
        0 <= i < s.len(),
    ensures
        ({
            let b = suites_bytes(s);
            &&& b.len() == 4 * s.len()
            &&& b[4 * i] * 0x100 + b[4 * i + 1] == s[i].kdf_id
            &&& b[4 * i + 2] * 0x100 + b[4 * i + 3] == s[i].aead_id
        }),
{
    let b = suites_bytes(s);
    lemma_suites_len(s);
    lemma_suites_written(s);
    assert(suites_of(b)[i] == s[i]);
    lemma_be_value_written_out(b.subrange(4 * i, 4 * i + 2));
    lemma_be_value_written_out(b.subrange(4 * i + 2, 4 * i + 4));
}

/// A list of configurations on the wire: its length in two bytes, and the configurations
/// one behind the other in their order.
pub proof fn lemma_list_written_out(s: Seq<EchConfigView>, t: Seq<EchConfigView>, c: EchConfigView)
    ensures
        configs_bytes(Seq::empty()) == Seq::<u8>::empty(),
        configs_bytes(seq![c]) == config_bytes(c),
        configs_bytes(s + t) == configs_bytes(s) + configs_bytes(t),
        configs_bytes(s).len() < 0x1_0000 ==> {
            let b = vec2(configs_bytes(s));
            &&& b.len() == 2 + configs_bytes(s).len()
            &&& b[0] * 0x100 + b[1] == configs_bytes(s).len()
            &&& b.skip(2) == configs_bytes(s)
        },
    decreases t.len(),
{
    assert(seq![c].drop_last() =~= Seq::empty());
    assert(configs_bytes(seq![c].drop_last()) =~= Seq::empty());
    assert(configs_bytes(seq![c]) =~= config_bytes(c));
    if configs_bytes(s).len() < 0x1_0000 {
        lemma_two_bytes(configs_bytes(s).len());
        assert(vec2(configs_bytes(s)).skip(2) =~= configs_bytes(s));
    }
    if t.len() == 0 {
        assert(s + t =~= s);
        assert(configs_bytes(s) + configs_bytes(t) =~= configs_bytes(s));
    } else {
        lemma_list_written_out(s, t.drop_last(), c);
        assert((s + t).drop_last() =~= s + t.drop_last());
        assert((s + t).last() == t.last());
        assert(configs_bytes(s + t) =~= configs_bytes(s) + configs_bytes(t));
    }
}

/// What the wire format can hold: a key, a suite and a name, the name of up to 255 bytes,
/// and contents of up to 65535. A list takes configurations of up to 65535 bytes in all.
pub proof fn lemma_what_fits(c: EchConfigView)
    ensures
        fits(c) <==> c.public_key.len() >= 1 && c.cipher_suites.len() >= 1 && 1 <= encode_utf8(
            c.public_name,
        ).len() <= 255 && 11 + c.public_key.len() + 4 * c.cipher_suites.len() + encode_utf8(
            c.public_name,
        ).len() <= 65535,
        list_fits(seq![c]) <==> fits(c) && 15 + c.public_key.len() + 4 * c.cipher_suites.len()
            + encode_utf8(c.public_name).len() <= 65535,
{
    let none = Seq::<EchConfigView>::empty();
    lemma_list_written_out(none, none, c);
    assert(seq![c][0] == c);
    if fits(c) {
        lemma_config_bytes_len(c);
    }
}

/// Configurations are taken one by one, in their order, with all that they hold.
pub proof fn lemma_configs_taken(s: Seq<EchConfig>, i: int)
    requires
        0 <= i < s.len(),
    ensures
        views(s).len() == s.len(),
        ({
            let v = views(s)[i];
            &&& v.config_id == s[i].config_id
            &&& v.kem_id == s[i].kem_id
            &&& v.public_key == s[i].public_key@
            &&& v.cipher_suites == s[i].cipher_suites@
            &&& v.maximum_name_length == s[i].maximum_name_length
            &&& v.public_name == s[i].public_name@
        }),
{
}

} // verus!
