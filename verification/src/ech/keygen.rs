//! The output of key generation: a PEM key file and the DNS `ech=` value.

use vstd::prelude::*;
use vstd::utf8::encode_utf8;

use crate::base64::base64_decode;
use crate::base64::base64_encode;
use crate::base64::decode_text;
use crate::base64::encode_text;
use crate::base64::is_base64_char;
use crate::base64::lemma_base64_chars;
use crate::base64::lemma_base64_roundtrip;
use crate::base64::Base64Error;
use crate::bytes::lemma_be_bytes_len;
use crate::ech::config::configs_bytes;
use crate::ech::config::decode_config;
use crate::ech::config::encode_list;
use crate::ech::config::lemma_config_bytes_len;
use crate::ech::config::lemma_config_roundtrip;
use crate::ech::config::lemma_list_written_out;
use crate::ech::config::lemma_what_fits;
use crate::ech::config::list_fits;
use crate::ech::config::vec2;
use crate::ech::config::views;
use crate::ech::config::CipherSuite;
use crate::ech::config::EchConfig;
use crate::ech::config::EchConfigView;
use crate::ech::config::HPKE_AEAD_AES_128_GCM;
use crate::ech::config::HPKE_KDF_HKDF_SHA256;
use crate::ech::config::HPKE_KEM_DHKEM_X25519;
use crate::ech::key::BundleError;
use crate::ech::key::PairView;
use crate::ech::key::encode_pair_pem;
use crate::ech::key::lemma_pairs_roundtrip;
use crate::ech::key::pair_text;
use crate::ech::key::pairs_of_file;
use crate::ech::key::pairs_text;
use crate::text::chars_of;
use crate::text::is_white_space;
use crate::text::lemma_trim_around;
use crate::text::lemma_trim_same;
use crate::text::string_of;
use crate::text::trim;
use crate::text::trim_bounds;

verus! {

/// Arguments of key generation.
#[derive(Debug)]
pub struct GenEchArgs {
    /// Public name (cleartext cover identity) in the configuration. The server
    /// should be able to present a valid certificate for it when ECH is rejected.
    pub public_name: String,
}

/// A generated key, ready to be stored and published.
#[derive(Debug)]
pub struct GeneratedKey {
    /// The PEM key file.
    pub pem: String,
    /// The Base64 form of the configuration list, for the DNS `ech=` value.
    pub config_list: String,
}

/// The public name or the public key is empty or too long for the wire format.
#[derive(Clone, Copy, Debug, PartialEq, Eq, Structural)]
pub struct UnencodableKey;

/// The configuration for a public key.
pub open spec fn new_config(
    public_name: Seq<char>,
    config_id: u8,
    public_key: Seq<u8>,
) -> EchConfigView {
    EchConfigView {
        config_id,
        kem_id: HPKE_KEM_DHKEM_X25519,
        public_key,
        cipher_suites: seq![
            CipherSuite { kdf_id: HPKE_KDF_HKDF_SHA256, aead_id: HPKE_AEAD_AES_128_GCM },
        ],
        maximum_name_length: 0,
        public_name,
    }
}

/// Whether a configuration is for an X25519 key: with DHKEM(X25519, HKDF-SHA256), the one
/// cipher suite HKDF-SHA256 with AES-128-GCM, and the id, the key and the name given.
pub open spec fn is_x25519_config(
    c: EchConfigView,
    public_name: Seq<char>,
    config_id: u8,
    public_key: Seq<u8>,
) -> bool {
    &&& c.config_id == config_id
    &&& c.kem_id == 0x0020
    &&& c.public_key == public_key
    &&& c.cipher_suites.len() == 1
    &&& c.cipher_suites[0].kdf_id == 0x0001
    &&& c.cipher_suites[0].aead_id == 0x0001
    &&& c.maximum_name_length == 0
    &&& c.public_name == public_name
}

/// Whether what is read from a key file is one pair, of this private key and a
/// configuration for the X25519 key, and what is read from a published list is that
/// configuration alone.
pub open spec fn holds_key(
    file: Result<Seq<PairView>, BundleError>,
    list: Result<Seq<u8>, Base64Error>,
    public_name: Seq<char>,
    config_id: u8,
    public_key: Seq<u8>,
    private_key: Seq<u8>,
) -> bool {
    &&& file matches Ok(pairs) && {
        &&& pairs.len() == 1
        &&& pairs[0].0 == private_key
        &&& is_x25519_config(pairs[0].1, public_name, config_id, public_key)
    }
    &&& list matches Ok(bytes) && {
        &&& bytes.len() >= 2
        &&& bytes[0] * 0x100 + bytes[1] == bytes.len() - 2
        &&& decode_config(bytes.skip(2)) matches Some(c) && is_x25519_config(
            c,
            public_name,
            config_id,
            public_key,
        )
    }
}

/// Render an X25519 key pair as a key file and a configuration list.
pub fn gen_ech_key(
    args: &GenEchArgs,
    config_id: u8,
    public_key: Vec<u8>,
    private_key: &[u8],
) -> (r: Result<GeneratedKey, UnencodableKey>)
    requires
        private_key@.len() <= usize::MAX / 4,
    ensures
        ({
            let config = new_config(args.public_name@, config_id, public_key@);
            let list = vec2(configs_bytes(seq![config]));
            match r {
                Ok(key) => {
                    &&& list_fits(seq![config])
                    &&& key.pem@ == pair_text(private_key@, config)
                    &&& key.config_list@ == base64_encode(list)
                    &&& holds_key(
                        pairs_of_file(encode_utf8(key.pem@)),
                        base64_decode(key.config_list@),
                        args.public_name@,
                        config_id,
                        public_key@,
                        private_key@,
                    )
                },
                Err(_) => !list_fits(seq![config]),
            }
        }),
{
    let ghost view = new_config(args.public_name@, config_id, public_key@);
    let mut cipher_suites: Vec<CipherSuite> = Vec::new();
    cipher_suites.push(
        CipherSuite { kdf_id: HPKE_KDF_HKDF_SHA256, aead_id: HPKE_AEAD_AES_128_GCM },
    );
    let config = EchConfig {
        config_id,
        kem_id: HPKE_KEM_DHKEM_X25519,
        public_key,
        cipher_suites,
        maximum_name_length: 0,
        public_name: args.public_name.clone(),
    };
    proof {
        assert(config@.cipher_suites =~= view.cipher_suites);
        assert(seq![view].drop_last() =~= Seq::empty());
        assert(configs_bytes(seq![view].drop_last()) =~= Seq::empty());
        assert(seq![view][0] == view);
    }
    if !config.encodable() {
        return Err(UnencodableKey);
    }
    proof {
        lemma_config_bytes_len(view);
    }
    if config.encode().len() >= 0x1_0000 {
        return Err(UnencodableKey);
    }
    let pem = encode_pair_pem(private_key, &config);
    let mut configs: Vec<EchConfig> = Vec::new();
    configs.push(config);
    assert(views(configs@) =~= seq![view]);
    let list = encode_list(&configs);
    proof {
        lemma_be_bytes_len(configs_bytes(seq![view]).len(), 2);
        lemma_generated_key(args.public_name@, config_id, view.public_key, private_key@);
    }
    Ok(GeneratedKey { pem, config_list: encode_text(&list) })
}

/// Read the Base64 form of a configuration list, with any white space around it.
pub fn decode_config_list(text: &str) -> (r: Result<Vec<u8>, Base64Error>)
    ensures
        match r {
            Ok(list) => base64_decode(trim(text@)) == Ok::<_, Base64Error>(list@),
            Err(e) => base64_decode(trim(text@)) == Err::<Seq<u8>, _>(e),
        },
{
    let chars = chars_of(text);
    let (from, to) = trim_bounds(&chars, 0, chars.len());
    assert(chars@.subrange(0, chars@.len() as int) =~= text@);
    let trimmed = string_of(&chars, from, to);
    decode_text(trimmed.as_str())
}

/// The client reads back the configuration list that key generation published.
pub proof fn lemma_published_list_read_back(list: Seq<u8>)
    ensures
        base64_decode(trim(base64_encode(list))) == Ok::<_, Base64Error>(list),
{
    let text = base64_encode(list);
    lemma_base64_chars(list);
    lemma_base64_roundtrip(list);
    if text.len() > 0 {
        assert(is_base64_char(text[0]));
        assert(is_base64_char(text[text.len() - 1]));
    }
    lemma_trim_same(text);
}

/// A generated key is read back from its key file and from its published list alike: as
/// one configuration with KEM id 0x0020 and the single cipher suite 0x0001, 0x0001, and
/// with the configuration id, the public key and the public name that were put in.
pub proof fn lemma_generated_key(
    public_name: Seq<char>,
    config_id: u8,
    public_key: Seq<u8>,
    private_key: Seq<u8>,
)
    requires
        list_fits(seq![new_config(public_name, config_id, public_key)]),
    ensures
        ({
            let config = new_config(public_name, config_id, public_key);
            let file = pairs_of_file(encode_utf8(pair_text(private_key, config)));
            let list = base64_decode(base64_encode(vec2(configs_bytes(seq![config]))));
            &&& holds_key(file, list, public_name, config_id, public_key, private_key)
            &&& file matches Ok(pairs) && pairs.len() == 1 && pairs[0].0 == private_key && {
                let c = pairs[0].1;
                &&& c.kem_id == 0x0020
                &&& c.cipher_suites == seq![CipherSuite { kdf_id: 0x0001, aead_id: 0x0001 }]
                &&& c.config_id == config_id
                &&& c.public_key == public_key
                &&& c.public_name == public_name
                &&& c.maximum_name_length == 0
            }
            &&& list matches Ok(bytes) && bytes.len() >= 2 && (decode_config(bytes.skip(2))
                matches Some(c) && {
                &&& c.kem_id == 0x0020
                &&& c.cipher_suites == seq![CipherSuite { kdf_id: 0x0001, aead_id: 0x0001 }]
                &&& c.config_id == config_id
                &&& c.public_key == public_key
                &&& c.public_name == public_name
                &&& c.maximum_name_length == 0
            })
        }),
{
    let config = new_config(public_name, config_id, public_key);
    let pair = (private_key, config);
    let none = Seq::<char>::empty();
    assert(seq![config][0] == config);
    assert(pairs_text(seq![pair].skip(1), seq![none].skip(1)) =~= none);
    assert(pairs_text(seq![pair], seq![none]) + none =~= pair_text(private_key, config));
    lemma_pairs_roundtrip(seq![pair], seq![none], none);
    let nothing = Seq::<EchConfigView>::empty();
    lemma_list_written_out(seq![config], nothing, config);
    lemma_base64_roundtrip(vec2(configs_bytes(seq![config])));
    lemma_config_roundtrip(config);
}

/// A key is generated exactly if the wire format can hold it: the name takes 1 to 255
/// bytes, the key is not empty, and the two leave room for the rest of a list.
pub proof fn lemma_key_encodable(public_name: Seq<char>, config_id: u8, public_key: Seq<u8>)
    ensures
        list_fits(seq![new_config(public_name, config_id, public_key)]) <==> {
            &&& 1 <= encode_utf8(public_name).len() <= 255
            &&& public_key.len() >= 1
            &&& 19 + public_key.len() + encode_utf8(public_name).len() <= 65535
        },
{
    lemma_what_fits(new_config(public_name, config_id, public_key));
}

/// White space around a published list changes nothing of what is read.
pub proof fn lemma_published_list_trimmed(list: Seq<u8>, a: Seq<char>, b: Seq<char>)
    requires
        list.len() > 0,
        forall|i: int| 0 <= i < a.len() ==> is_white_space(#[trigger] a[i]),
        forall|i: int| 0 <= i < b.len() ==> is_white_space(#[trigger] b[i]),
    ensures
        base64_decode(trim(a + base64_encode(list) + b)) == Ok::<_, Base64Error>(list),
{
    let text = base64_encode(list);
    lemma_base64_chars(list);
    lemma_base64_roundtrip(list);
    assert(text.len() > 0);
    assert(is_base64_char(text[0]));
    assert(is_base64_char(text[text.len() - 1]));
    lemma_trim_around(a, text, b);
}

} // verus!
