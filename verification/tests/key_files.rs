//! ECH configurations and key files.

use zeromasque::base64::Base64Error;
use zeromasque::ech::config::encode_list;
use zeromasque::ech::config::CipherSuite;
use zeromasque::ech::config::EchConfig;
use zeromasque::ech::config::HPKE_AEAD_AES_128_GCM;
use zeromasque::ech::config::HPKE_KDF_HKDF_SHA256;
use zeromasque::ech::config::HPKE_KEM_DHKEM_X25519;
use zeromasque::ech::key::encode_pair_pem;
use zeromasque::ech::key::is_key_file_name;
use zeromasque::ech::key::parse_pem_bundle;
use zeromasque::ech::key::BundleError;
use zeromasque::ech::key::EchKeyPair;
use zeromasque::ech::key::EchKeySet;
use zeromasque::ech::key::KeySetError;
use zeromasque::ech::keydir::DirEntry;
use zeromasque::ech::keygen::decode_config_list;
use zeromasque::ech::keygen::gen_ech_key;
use zeromasque::ech::keygen::GenEchArgs;
use zeromasque::ech::pem::parse_pem_blocks;
use zeromasque::ech::pem::write_pem_block;
use zeromasque::ech::pem::PemError;

fn sample_config(id: u8) -> EchConfig {
    EchConfig {
        config_id: id,
        kem_id: HPKE_KEM_DHKEM_X25519,
        public_key: vec![0xab; 32],
        cipher_suites: vec![CipherSuite {
            kdf_id: HPKE_KDF_HKDF_SHA256,
            aead_id: HPKE_AEAD_AES_128_GCM,
        }],
        maximum_name_length: 0,
        public_name: "example.com".into(),
    }
}

#[test]
fn pem_roundtrip_single_pair() {
    let cfg = sample_config(7);
    let pem = encode_pair_pem(&[0x55; 32], &cfg);
    let pairs = parse_pem_bundle(pem.as_bytes()).unwrap();
    assert_eq!(pairs.len(), 1);
    assert_eq!(pairs[0].private_key, vec![0x55; 32]);
    assert_eq!(pairs[0].config.config_id, 7);
}

#[test]
fn pem_roundtrip_multiple_pairs() {
    let a = sample_config(1);
    let b = sample_config(2);
    let mut pem = String::new();
    pem.push_str(&encode_pair_pem(&[0x01; 32], &a));
    pem.push('\n');
    pem.push_str(&encode_pair_pem(&[0x02; 32], &b));
    let pairs = parse_pem_bundle(pem.as_bytes()).unwrap();
    assert_eq!(pairs.len(), 2);
    assert_eq!(pairs[0].config.config_id, 1);
    assert_eq!(pairs[1].config.config_id, 2);
}

#[test]
fn configuration_bytes_are_exact() {
    let mut want = vec![0xfe, 0x0d, 0x00, 0x3b, 7, 0x00, 0x20, 0x00, 0x20];
    want.extend_from_slice(&[0xab; 32]);
    want.extend_from_slice(&[0x00, 0x04, 0x00, 0x01, 0x00, 0x01, 0, 11]);
    want.extend_from_slice(b"example.com");
    want.extend_from_slice(&[0, 0]);
    want[3] = (want.len() - 4) as u8;
    let got = sample_config(7).encode();
    assert_eq!(got, want);
    let back = EchConfig::decode(&got).unwrap();
    assert_eq!(back.public_name, "example.com");
    assert_eq!(back.encode(), want);
    let mut list = vec![0, want.len() as u8];
    list.extend_from_slice(&want);
    assert_eq!(encode_list(&[sample_config(7)]), list);
}

#[test]
fn malformed_configurations_are_rejected() {
    let good = sample_config(7).encode();
    assert!(EchConfig::decode(&good[..good.len() - 1]).is_err());
    let mut version = good.clone();
    version[1] = 0x0c;
    assert!(EchConfig::decode(&version).is_err());
    let mut longer = good.clone();
    longer.push(0);
    assert!(EchConfig::decode(&longer).is_err());
    assert!(EchConfig::decode(&[]).is_err());
}

#[test]
fn unencodable_configuration_is_noticed() {
    let mut c = sample_config(1);
    assert!(c.encodable());
    c.public_name = String::new();
    assert!(!c.encodable());
    c.public_name = "x".repeat(256);
    assert!(!c.encodable());
}

#[test]
fn pem_lines_are_64_wide() {
    let mut out = String::from("x\n");
    write_pem_block(&mut out, "L", &[0u8; 50]);
    let mut want = String::from("x\n-----BEGIN L-----\n");
    want.push_str(&"A".repeat(64));
    want.push_str("\nAAA=\n-----END L-----\n");
    assert_eq!(out, want);
}

#[test]
fn pem_block_is_read_back() {
    let mut out = String::new();
    write_pem_block(&mut out, "L", b"hello");
    let blocks = parse_pem_blocks(out.as_bytes()).unwrap();
    assert_eq!(blocks.len(), 1);
    assert_eq!(blocks[0].label, vec!['L']);
    assert_eq!(blocks[0].body, b"hello".to_vec());
}

#[test]
fn pem_errors() {
    assert_eq!(parse_pem_blocks(&[0xff]).err(), Some(PemError::NotUtf8));
    assert_eq!(
        parse_pem_blocks(b"hello").err(),
        Some(PemError::ExpectedBegin)
    );
    assert_eq!(
        parse_pem_blocks(b"-----BEGIN A-----\nAAAA\n").err(),
        Some(PemError::MissingEnd)
    );
    assert_eq!(
        parse_pem_blocks(b"-----BEGIN A-----\n!!!!\n-----END A-----\n").err(),
        Some(PemError::BadBase64(Base64Error::InvalidEncoding))
    );
}

#[test]
fn bundle_errors() {
    let mut cfg = String::new();
    write_pem_block(&mut cfg, "ECH CONFIG", &sample_config(1).encode());
    let mut key = String::new();
    write_pem_block(&mut key, "ECH PRIVATE KEY", &[1; 32]);
    let mut other = String::new();
    write_pem_block(&mut other, "CERTIFICATE", &[1; 32]);
    let mut bad = String::new();
    write_pem_block(&mut bad, "ECH CONFIG", &[1, 2, 3]);
    let err = |text: String| parse_pem_bundle(text.as_bytes()).err();
    assert_eq!(err(cfg.clone()), Some(BundleError::ConfigBeforeKey));
    assert_eq!(err(other), Some(BundleError::UnexpectedLabel));
    assert_eq!(err(key.clone()), Some(BundleError::MissingConfig));
    assert_eq!(
        err(format!("{key}{key}")),
        Some(BundleError::ExpectedConfig)
    );
    assert_eq!(err(format!("{key}{bad}")), Some(BundleError::BadConfig));
    assert_eq!(err(format!("{key}\r\n \n{cfg}")), None);
    assert_eq!(parse_pem_bundle(b"").unwrap().len(), 0);
}

#[test]
fn key_sets_load_all_files_in_order() {
    let a = encode_pair_pem(&[1; 32], &sample_config(1)).into_bytes();
    let b = encode_pair_pem(&[2; 32], &sample_config(2)).into_bytes();
    let set = EchKeySet::load(&vec![a, b]).unwrap();
    assert_eq!(set.pairs.len(), 2);
    assert_eq!(set.pairs[1].private_key, vec![2; 32]);
    assert!(set.list_encodable());
    let mut list = sample_config(1).encode();
    list.extend_from_slice(&sample_config(2).encode());
    let mut want = vec![(list.len() / 256) as u8, (list.len() % 256) as u8];
    want.extend_from_slice(&list);
    assert_eq!(set.config_list_bytes(), want);
    assert_eq!(
        decode_config_list(&set.published_list().unwrap()).unwrap(),
        want
    );
}

#[test]
fn oversized_lists_are_not_published() {
    let mut config = sample_config(1);
    config.public_key = vec![0; 40_000];
    let set = EchKeySet {
        pairs: vec![
            EchKeyPair {
                private_key: vec![1],
                config: config.clone(),
            },
            EchKeyPair {
                private_key: vec![2],
                config,
            },
        ],
    };
    assert!(!set.list_encodable());
    assert!(set.published_list().is_none());
}

#[test]
fn key_set_errors() {
    assert_eq!(
        EchKeySet::load(&Vec::new()).err(),
        Some(KeySetError::Empty)
    );
    let a = encode_pair_pem(&[1; 32], &sample_config(1)).into_bytes();
    assert_eq!(
        EchKeySet::load(&vec![a.clone(), b"\n".to_vec()]).err(),
        Some(KeySetError::NoPairs { index: 1 })
    );
    assert_eq!(
        EchKeySet::load(&vec![b"x".to_vec()]).err(),
        Some(KeySetError::Bundle {
            index: 0,
            error: BundleError::Pem(PemError::ExpectedBegin)
        })
    );
    assert_eq!(
        EchKeySet::load(&vec![a.clone(), a]).err(),
        Some(KeySetError::DuplicateId { config_id: 1 })
    );
}

fn entry(name: Option<&str>, is_file: bool, contents: Option<Vec<u8>>) -> DirEntry {
    DirEntry {
        name: name.map(|n| n.to_string()),
        is_file,
        contents,
    }
}

fn key_file(name: &str, id: u8) -> DirEntry {
    let pem = encode_pair_pem(&[id; 32], &sample_config(id));
    entry(Some(name), true, Some(pem.into_bytes()))
}

fn ids(set: &EchKeySet) -> Vec<u8> {
    set.pairs.iter().map(|p| p.config.config_id).collect()
}

#[test]
fn directories_are_read_in_the_order_of_names() {
    let set = EchKeySet::load_directory(&[
        key_file("b.pem", 3),
        entry(Some(".swp"), true, None),
        key_file("a.pem", 2),
        entry(Some("old"), false, None),
        key_file("B.pem", 1),
        entry(None, true, None),
        key_file("\u{e9}.pem", 5),
        key_file("b.pem.2", 4),
    ])
    .unwrap();
    assert_eq!(ids(&set), vec![1, 2, 3, 4, 5]);
    let set = EchKeySet::load_directory(&[
        key_file("\u{e9}.pem", 5),
        key_file("a.pem", 2),
        key_file("B.pem", 1),
        key_file("b.pem.2", 4),
        key_file("b.pem", 3),
    ])
    .unwrap();
    assert_eq!(ids(&set), vec![1, 2, 3, 4, 5]);
}

#[test]
fn directory_errors() {
    assert_eq!(
        EchKeySet::load_directory(&[]).err(),
        Some(KeySetError::Empty)
    );
    assert_eq!(
        EchKeySet::load_directory(&[
            entry(Some(".a"), true, Some(b"x".to_vec())),
            entry(Some("d"), false, None),
        ])
        .err(),
        Some(KeySetError::Empty)
    );
    // A file that cannot be read comes before errors in what was read.
    let bad = || entry(Some("a"), true, Some(b"x".to_vec()));
    assert_eq!(
        EchKeySet::load_directory(&[
            entry(Some("c"), true, None),
            entry(Some("b"), true, None),
            bad(),
        ])
        .err(),
        Some(KeySetError::Unreadable { index: 1 })
    );
    assert_eq!(
        EchKeySet::load_directory(&[key_file("b", 1), bad()]).err(),
        Some(KeySetError::Bundle {
            index: 0,
            error: BundleError::Pem(PemError::ExpectedBegin)
        })
    );
    assert_eq!(
        EchKeySet::load_directory(&[key_file("a", 1), key_file("b", 1)]).err(),
        Some(KeySetError::DuplicateId { config_id: 1 })
    );
}

#[test]
fn key_sets_are_copied() {
    let set = EchKeySet::load_directory(&[key_file("a", 1), key_file("b", 2)]).unwrap();
    let copy = set.clone();
    assert_eq!(ids(&copy), vec![1, 2]);
    assert_eq!(copy.pairs[1].private_key, vec![2; 32]);
    assert_eq!(copy.pairs[1].config.encode(), set.pairs[1].config.encode());
    assert_eq!(copy.config_list_bytes(), set.config_list_bytes());
}

#[test]
fn hidden_files_are_no_key_files() {
    assert!(is_key_file_name("ech.pem"));
    assert!(!is_key_file_name(".swp"));
}

#[test]
fn generated_key_is_loaded_and_published() {
    let args = GenEchArgs {
        public_name: "public.example.com".to_string(),
    };
    let key = gen_ech_key(&args, 0x2a, vec![9; 32], &[8; 32]).unwrap();
    let set = EchKeySet::load(&vec![key.pem.clone().into_bytes()]).unwrap();
    assert_eq!(set.pairs[0].private_key, vec![8; 32]);
    assert_eq!(set.pairs[0].config.config_id, 0x2a);
    assert_eq!(set.pairs[0].config.public_key, vec![9; 32]);
    let text = format!("  {}\n", key.config_list);
    assert_eq!(
        decode_config_list(&text).unwrap(),
        set.config_list_bytes()
    );
    assert!(key.config_list.starts_with("AE"));
}

#[test]
fn key_generation_refuses_an_empty_name() {
    let args = GenEchArgs {
        public_name: String::new(),
    };
    assert!(gen_ech_key(&args, 1, vec![9; 32], &[8; 32]).is_err());
}

#[test]
fn config_list_text_must_be_base64() {
    assert_eq!(decode_config_list(" aGk= ").unwrap(), b"hi".to_vec());
    assert_eq!(
        decode_config_list("a!"),
        Err(Base64Error::InvalidEncoding)
    );
}

#[test]
fn base64_is_standard_and_strict() {
    for (text, bytes) in [
        ("", &b""[..]),
        ("Zg==", b"f"),
        ("Zm8=", b"fo"),
        ("Zm9v", b"foo"),
        ("Zm9vYg==", b"foob"),
        ("Zm9vYmE=", b"fooba"),
        ("Zm9vYmFy", b"foobar"),
        ("+/A=", &[0xfb, 0xf0]),
        ("////", &[0xff, 0xff, 0xff]),
    ] {
        assert_eq!(decode_config_list(text).unwrap(), bytes.to_vec());
        let mut pem = String::new();
        write_pem_block(&mut pem, "L", bytes);
        if bytes.is_empty() {
            assert_eq!(pem, "-----BEGIN L-----\n-----END L-----\n");
        } else {
            assert_eq!(pem, format!("-----BEGIN L-----\n{text}\n-----END L-----\n"));
        }
    }
    for text in [
        "Zg", "Zg=", "Zg===", "Zh==", "Zm9=", "Zm9", "Zm9vY", "=", "====", "Zg==Zg==", "-_A=",
        "Zm 9", "Zm\n9v", "Zm9\u{e9}",
    ] {
        assert_eq!(
            decode_config_list(text),
            Err(Base64Error::InvalidEncoding),
            "{text:?}"
        );
    }
}
