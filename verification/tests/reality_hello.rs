use std::collections::HashSet;

use aws_lc_rs::kem::{EncapsulationKey, ML_KEM_768};
use base64::engine::{general_purpose::URL_SAFE_NO_PAD, Engine as _};
use foxwire::error::ErrorKind;
use foxwire::reality::auth::{
    derive_auth_key, extract_certificate_der, session_id_metadata, verify_certificate_hmac,
};
use foxwire::reality::client_hello::{
    assert_session_id_window, construct_client_hello, EchGreaseParams, HelloSession,
};
use foxwire::reality::common::{
    HANDSHAKE_TYPE_CERTIFICATE, HELLO_SESSION_ID_LEN, HELLO_SESSION_ID_OFFSET,
};
use foxwire::reality::grease::{is_grease, GreaseSlot, GreaseValues};
use foxwire::reality::group::NamedGroup;
use foxwire::reality::hello_profile::{
    CipherSuiteSlot, EchGreaseShape, ExtensionSlot, GroupSlot, HelloProfile, KeyShareSlot,
};
use foxwire::reality::hello_tables::{chrome_alpn_protocols, RealityHelloProfile};
use foxwire::reality::key_exchange::{
    x25519_agree, x25519_public_key, ClientKeyExchange, HybridKeyExchange, P256KeyExchange,
    ML_KEM_768_ENCAPSULATION_KEY_LEN, ML_KEM_768_SHARED_SECRET_LEN, P256_POINT_LEN,
    X25519MLKEM768_CLIENT_SHARE_LEN, X25519MLKEM768_SHARED_SECRET_LEN,
};
use foxwire::reality::messages::construct_certificate;
use foxwire::reality::prepared_hello::{prepare_hello, ClientIdentity, HelloDraws};
use foxwire::reality::server_hello::ServerKeyShare;
use foxwire::reality::testkit::generate_hmac_certificate;
use foxwire::reality::util::{decode_hex_to_slice, decode_public_key, decode_short_id};

const ML_KEM_768_CIPHERTEXT_LEN: usize = 1088;
const X25519_LEN: usize = 32;

#[test]
fn the_p256_share_is_an_uncompressed_sec1_point() {
    let exchange = ClientKeyExchange::generate(&[NamedGroup::X25519, NamedGroup::Secp256r1])
        .ok()
        .expect("P-256 shares are generated");
    let share = exchange
        .share_bytes(NamedGroup::Secp256r1)
        .expect("a P-256 share was asked for");
    assert_eq!(share.len(), P256_POINT_LEN);
    assert_eq!(share[0], 0x04, "SEC1 uncompressed point marker");

    let other = ClientKeyExchange::generate(&[NamedGroup::Secp256r1]).ok().unwrap();
    assert_ne!(share, other.share_bytes(NamedGroup::Secp256r1).unwrap());
}

#[test]
fn two_p256_keys_agree() {
    let ours = P256KeyExchange::from_private(vec![1; 32]).ok().unwrap();
    let exchange = ClientKeyExchange::generate(&[NamedGroup::Secp256r1]).ok().unwrap();
    let share = exchange.share_bytes(NamedGroup::Secp256r1).unwrap();
    let theirs = ours.agree(&share).unwrap();
    // The public point of the private key [1; 32] is what `ours` offers.
    let key = aws_lc_rs::agreement::PrivateKey::from_private_key(
        &aws_lc_rs::agreement::ECDH_P256,
        &[1; 32],
    )
    .unwrap();
    let mut point = Box::new([0_u8; 65]);
    point.copy_from_slice(key.compute_public_key().unwrap().as_ref());
    let secret = exchange.complete(&ServerKeyShare::Secp256r1(point)).unwrap();
    assert_eq!(secret, theirs);
    assert_eq!(secret.len(), 32);
}

#[test]
fn classical_key_share_reuse_is_per_profile() {
    let groups = [NamedGroup::X25519MlKem768, NamedGroup::X25519];

    let reused = ClientKeyExchange::generate_with_reuse(&groups, true).ok().unwrap();
    let hybrid = reused.share_bytes(NamedGroup::X25519MlKem768).unwrap();
    let flat = reused.share_bytes(NamedGroup::X25519).unwrap();
    assert_eq!(
        &hybrid[ML_KEM_768_ENCAPSULATION_KEY_LEN..],
        flat.as_slice(),
        "with reuse the standalone share must repeat the hybrid's classical half"
    );

    let independent = ClientKeyExchange::generate_with_reuse(&groups, false).ok().unwrap();
    let hybrid = independent.share_bytes(NamedGroup::X25519MlKem768).unwrap();
    let flat = independent.share_bytes(NamedGroup::X25519).unwrap();
    assert_ne!(
        &hybrid[ML_KEM_768_ENCAPSULATION_KEY_LEN..],
        flat.as_slice(),
        "without reuse the two shares must be independent keys"
    );
}

#[test]
fn an_exchange_is_put_together_from_keys() {
    let hybrid = || HybridKeyExchange::from_keys(vec![1; 2400], vec![2; 1184], [3; 32]).ok();
    let reused = ClientKeyExchange::assemble(true, [4; 32], hybrid(), None).ok().unwrap();
    let apart = ClientKeyExchange::assemble(false, [4; 32], hybrid(), None).ok().unwrap();
    let classical = x25519_public_key(&[3; 32]).unwrap().to_vec();
    let own = x25519_public_key(&[4; 32]).unwrap().to_vec();
    assert_eq!(reused.share_bytes(NamedGroup::X25519), Some(classical.clone()));
    assert_eq!(apart.share_bytes(NamedGroup::X25519), Some(own));
    let mut share = vec![2; 1184];
    share.extend_from_slice(&classical);
    assert_eq!(apart.share_bytes(NamedGroup::X25519MlKem768), Some(share));
    assert!(apart.share_bytes(NamedGroup::Secp256r1).is_none());
    assert!(HybridKeyExchange::from_keys(vec![1; 2400], vec![2; 1183], [3; 32]).is_err());
}

#[test]
fn the_hybrid_client_share_is_encapsulation_key_then_x25519() {
    let exchange = ClientKeyExchange::generate(&[NamedGroup::X25519, NamedGroup::X25519MlKem768])
        .ok()
        .unwrap();
    let share = exchange
        .share_bytes(NamedGroup::X25519MlKem768)
        .expect("the hybrid share must exist when the group was asked for");
    assert_eq!(share.len(), X25519MLKEM768_CLIENT_SHARE_LEN);
    assert_eq!(share.len(), 1216);

    let head = &share[..ML_KEM_768_ENCAPSULATION_KEY_LEN];
    let (ciphertext, _) = EncapsulationKey::new(&ML_KEM_768, head)
        .expect("the first 1184 bytes must parse as an ML-KEM-768 encapsulation key")
        .encapsulate()
        .expect("and must encapsulate");
    assert_eq!(ciphertext.as_ref().len(), ML_KEM_768_CIPHERTEXT_LEN);

    let plain = exchange.share_bytes(NamedGroup::X25519).unwrap();
    assert_eq!(plain.len(), X25519_LEN);
    assert_ne!(&share[ML_KEM_768_ENCAPSULATION_KEY_LEN..], plain.as_slice());
}

#[test]
fn the_hybrid_shared_secret_is_ml_kem_then_x25519() {
    let exchange = ClientKeyExchange::generate(&[NamedGroup::X25519MlKem768]).ok().unwrap();
    let client_share = exchange.share_bytes(NamedGroup::X25519MlKem768).unwrap();

    let encapsulation_key = EncapsulationKey::new(
        &ML_KEM_768,
        &client_share[..ML_KEM_768_ENCAPSULATION_KEY_LEN],
    )
    .unwrap();
    let (ciphertext, server_ml_kem_secret) = encapsulation_key.encapsulate().unwrap();
    assert_eq!(ciphertext.as_ref().len(), ML_KEM_768_CIPHERTEXT_LEN);

    let server_private = [0x37_u8; X25519_LEN];
    let server_public = x25519_public_key(&server_private).unwrap();
    let expected_ecdh = x25519_agree(
        &server_private,
        client_share[ML_KEM_768_ENCAPSULATION_KEY_LEN..]
            .try_into()
            .unwrap(),
    )
    .unwrap();

    let mut ml_kem_ciphertext = Box::new([0_u8; ML_KEM_768_CIPHERTEXT_LEN]);
    ml_kem_ciphertext.copy_from_slice(ciphertext.as_ref());
    let secret = exchange
        .complete(&ServerKeyShare::X25519MlKem768 {
            ml_kem_ciphertext,
            x25519: server_public,
        })
        .unwrap();

    assert_eq!(secret.len(), X25519MLKEM768_SHARED_SECRET_LEN);
    assert_eq!(secret.len(), 64);
    assert_eq!(
        &secret[..ML_KEM_768_SHARED_SECRET_LEN],
        server_ml_kem_secret.as_ref(),
        "X25519MLKEM768 puts the ML-KEM secret first; SecP256r1MLKEM768 is the reverse"
    );
    assert_eq!(&secret[ML_KEM_768_SHARED_SECRET_LEN..], &expected_ecdh);
}

#[test]
fn the_plain_group_still_agrees_byte_for_byte() {
    let exchange = ClientKeyExchange::generate(&[NamedGroup::X25519]).ok().unwrap();
    let client_public: [u8; X25519_LEN] = exchange
        .share_bytes(NamedGroup::X25519)
        .unwrap()
        .try_into()
        .unwrap();
    let server_private = [0x11_u8; X25519_LEN];
    let server_public = x25519_public_key(&server_private).unwrap();

    let ours = exchange
        .complete(&ServerKeyShare::X25519(server_public))
        .unwrap();
    let theirs = x25519_agree(&server_private, &client_public).unwrap();
    assert_eq!(ours.as_slice(), &theirs);

    assert_eq!(
        x25519_public_key(exchange.reality_private_key()).unwrap(),
        client_public
    );
}

#[test]
fn a_hybrid_answer_without_a_hybrid_offer_is_refused() {
    let exchange = ClientKeyExchange::generate(&[NamedGroup::X25519]).ok().unwrap();
    let error = exchange
        .complete(&ServerKeyShare::X25519MlKem768 {
            ml_kem_ciphertext: Box::new([0_u8; ML_KEM_768_CIPHERTEXT_LEN]),
            x25519: [0_u8; X25519_LEN],
        })
        .expect_err("a group we sent no share for cannot be completed");
    assert_eq!(error.kind(), ErrorKind::InvalidData);
}

#[test]
fn a_group_this_build_cannot_execute_is_a_construction_error() {
    let Err(error) = ClientKeyExchange::generate(&[NamedGroup::Secp384r1]) else {
        panic!("secp384r1 shares are not implemented and must not be generated");
    };
    assert_eq!(error.kind(), ErrorKind::Unsupported);

    let Err(error) = ClientKeyExchange::generate(&[NamedGroup::Ffdhe2048]) else {
        panic!("ffdhe2048 shares are not implemented and must not be generated");
    };
    assert_eq!(error.kind(), ErrorKind::Unsupported);
}

#[test]
fn test_construct_certificate() {
    let auth_key = [0x42u8; 32];
    let (cert, _) = generate_hmac_certificate(&auth_key, "test.example.com").unwrap();
    let result = construct_certificate(&cert);
    assert!(result.is_ok());
    let msg = result.unwrap();
    assert_eq!(msg[0], HANDSHAKE_TYPE_CERTIFICATE);

    assert_eq!(extract_certificate_der(&msg).unwrap(), cert.as_slice());
    assert!(verify_certificate_hmac(&cert, &auth_key).is_ok());
    assert!(verify_certificate_hmac(&cert, &[0x43; 32]).is_err());
}

#[test]
fn the_authentication_key_is_hkdf_of_the_secret() {
    // RFC 5869 takes the salt as the key of the extraction.
    let key = derive_auth_key(&[0x0b; 32], &[0x00, 0x01, 0x02], b"REALITY");
    let again = derive_auth_key(&[0x0b; 32], &[0x00, 0x01, 0x02], b"REALITY");
    assert_eq!(key, again);
    assert_ne!(key, derive_auth_key(&[0x0b; 32], &[0x00, 0x01, 0x03], b"REALITY"));
    assert_ne!(key, derive_auth_key(&[0x0b; 32], &[0x00, 0x01, 0x02], b"reality"));
    assert_eq!(
        session_id_metadata(0x0102_0304, &[9; 8]),
        [1, 8, 0, 0, 1, 2, 3, 4, 9, 9, 9, 9, 9, 9, 9, 9]
    );
}

/// A ClientHello, parsed back out of the bytes the builder produced.
struct ParsedHello {
    cipher_suites: Vec<u16>,
    session_id: Vec<u8>,
    /// `(type, body)` in wire order.
    extensions: Vec<(u16, Vec<u8>)>,
}

impl ParsedHello {
    fn parse(hello: &[u8]) -> Self {
        assert_eq!(hello[0], 0x01, "ClientHello");
        let declared = u32::from_be_bytes([0, hello[1], hello[2], hello[3]]) as usize;
        assert_eq!(declared, hello.len() - 4, "handshake length");

        let mut offset = 1 + 3 + 2 + 32;
        let session_id_len = hello[offset] as usize;
        offset += 1;
        let session_id = hello[offset..offset + session_id_len].to_vec();
        offset += session_id_len;

        let cipher_suites_len = u16::from_be_bytes([hello[offset], hello[offset + 1]]) as usize;
        offset += 2;
        let cipher_suites = hello[offset..offset + cipher_suites_len]
            .chunks_exact(2)
            .map(|pair| u16::from_be_bytes([pair[0], pair[1]]))
            .collect();
        offset += cipher_suites_len;

        let compression_len = hello[offset] as usize;
        assert_eq!(&hello[offset..offset + 1 + compression_len], &[0x01, 0x00]);
        offset += 1 + compression_len;

        let extensions_len = u16::from_be_bytes([hello[offset], hello[offset + 1]]) as usize;
        offset += 2;
        let extensions_end = offset + extensions_len;
        assert_eq!(extensions_end, hello.len(), "extensions run to the end");

        let mut extensions = Vec::new();
        while offset < extensions_end {
            let extension_type = u16::from_be_bytes([hello[offset], hello[offset + 1]]);
            let length = u16::from_be_bytes([hello[offset + 2], hello[offset + 3]]) as usize;
            offset += 4;
            extensions.push((extension_type, hello[offset..offset + length].to_vec()));
            offset += length;
        }
        assert_eq!(offset, extensions_end);

        Self {
            cipher_suites,
            session_id,
            extensions,
        }
    }

    fn body(&self, extension_type: u16) -> &[u8] {
        self.extensions
            .iter()
            .find(|(candidate, _)| *candidate == extension_type)
            .map(|(_, body)| body.as_slice())
            .unwrap_or_else(|| panic!("no extension 0x{extension_type:04x}"))
    }
}

const TEST_SEED: [u8; 5] = [0x00, 0x1f, 0x2c, 0x30, 0x4d];

fn test_hello(profile: &HelloProfile, seed: u64) -> (Vec<u8>, [u8; 32], GreaseValues) {
    let session_id = [0x5c_u8; 32];
    let grease = GreaseValues::from_seed(TEST_SEED);
    let exchange = ClientKeyExchange::generate(&profile.key_share_groups())
        .ok()
        .expect("key material");
    let key_shares: Vec<(NamedGroup, Vec<u8>)> = profile
        .key_share_groups()
        .into_iter()
        .map(|group| (group, exchange.share_bytes(group).expect("a share")))
        .collect();
    let alpn = chrome_alpn_protocols();
    let session = HelloSession {
        client_random: &[0x11_u8; 32],
        session_id: &session_id,
        server_name: "www.example.com",
        alpn_protocols: &alpn,
        key_shares: &key_shares,
        grease,
        ech_grease: EchGreaseParams::new([0x7e_u8; 32], [1, 2, 3], [0x5f; 240]),
        permutation_seed: seed,
    };
    (
        construct_client_hello(profile, &session).unwrap(),
        session_id,
        grease,
    )
}

fn chrome_133() -> HelloProfile {
    RealityHelloProfile::Chrome133.table()
}

#[test]
fn test_client_hello_signature_algorithms_match_chrome_utls() {
    let (hello, _, _) = test_hello(&chrome_133(), 7);
    let extension = ParsedHello::parse(&hello).body(0x000d).to_vec();
    assert_eq!(u16::from_be_bytes([extension[0], extension[1]]), 16);
    assert_eq!(
        &extension[2..],
        &[
            0x04, 0x03, // ecdsa_secp256r1_sha256
            0x08, 0x04, // rsa_pss_rsae_sha256
            0x04, 0x01, // rsa_pkcs1_sha256
            0x05, 0x03, // ecdsa_secp384r1_sha384
            0x08, 0x05, // rsa_pss_rsae_sha384
            0x05, 0x01, // rsa_pkcs1_sha384
            0x08, 0x06, // rsa_pss_rsae_sha512
            0x06, 0x01, // rsa_pkcs1_sha512
        ]
    );
}

#[test]
fn grease_lands_in_every_slot_chrome_greases() {
    let (hello, _, grease) = test_hello(&chrome_133(), 3);
    let parsed = ParsedHello::parse(&hello);

    assert_eq!(
        parsed.cipher_suites[0],
        grease.value(GreaseSlot::Cipher),
        "cipher_suites[0]"
    );

    let groups = parsed.body(0x000a);
    assert_eq!(
        u16::from_be_bytes([groups[2], groups[3]]),
        grease.value(GreaseSlot::Group),
        "supported_groups[0]"
    );

    let key_share = parsed.body(0x0033);
    assert_eq!(
        u16::from_be_bytes([key_share[2], key_share[3]]),
        grease.value(GreaseSlot::Group),
        "key_share[0] draws the same GREASE value as supported_groups"
    );
    assert_eq!(
        u16::from_be_bytes([key_share[4], key_share[5]]),
        1,
        "the GREASE key share is one byte, not zero-length"
    );

    let versions = parsed.body(0x002b);
    assert_eq!(
        u16::from_be_bytes([versions[1], versions[2]]),
        grease.value(GreaseSlot::Version),
        "supported_versions[0]"
    );

    let (first_type, first_body) = &parsed.extensions[0];
    let (last_type, last_body) = parsed.extensions.last().unwrap();
    assert_eq!(*first_type, grease.value(GreaseSlot::Extension1));
    assert!(first_body.is_empty(), "the first GREASE extension is empty");
    assert_eq!(*last_type, grease.value(GreaseSlot::Extension2));
    assert_eq!(
        last_body.as_slice(),
        &[0x00],
        "the last GREASE extension carries one zero byte"
    );
    assert_ne!(first_type, last_type);
    for value in [
        parsed.cipher_suites[0],
        *first_type,
        *last_type,
        grease.value(GreaseSlot::Group),
        grease.value(GreaseSlot::Version),
    ] {
        assert!(is_grease(value), "{value:#06x} is not a GREASE point");
    }
}

#[test]
fn the_hello_carries_both_key_shares_at_their_draft_lengths() {
    let (hello, _, _) = test_hello(&chrome_133(), 11);
    let key_share = ParsedHello::parse(&hello).body(0x0033).to_vec();
    let list_len = u16::from_be_bytes([key_share[0], key_share[1]]) as usize;
    assert_eq!(list_len, key_share.len() - 2);

    let mut offset = 2;
    let mut seen = Vec::new();
    while offset < key_share.len() {
        let group = u16::from_be_bytes([key_share[offset], key_share[offset + 1]]);
        let length = u16::from_be_bytes([key_share[offset + 2], key_share[offset + 3]]) as usize;
        seen.push((group, length));
        offset += 4 + length;
    }
    assert_eq!(offset, key_share.len());
    assert_eq!(seen.len(), 3);
    assert_eq!(seen[1], (NamedGroup::X25519MlKem768.id(), 1216));
    assert_eq!(seen[2], (NamedGroup::X25519.id(), 32));
}

#[test]
fn the_hello_greases_ech_the_way_chrome_does() {
    let (hello, _, _) = test_hello(&chrome_133(), 5);
    let body = ParsedHello::parse(&hello).body(0xfe0d).to_vec();
    assert_eq!(body[0], 0x00, "outer ECHClientHello");
    assert_eq!(u16::from_be_bytes([body[6], body[7]]) as usize, 32);
    assert_eq!(&body[8..40], &[0x7e_u8; 32]);
    let payload_len = u16::from_be_bytes([body[40], body[41]]) as usize;
    assert_eq!(body.len(), 42 + payload_len);
}

#[test]
fn the_session_id_sits_at_the_constant_the_reality_aad_uses() {
    let (hello, session_id, _) = test_hello(&chrome_133(), 13);
    assert_eq!(HELLO_SESSION_ID_OFFSET, 39, "1 + 3 + 2 + 32 + 1");
    assert_eq!(
        &hello[HELLO_SESSION_ID_OFFSET..HELLO_SESSION_ID_OFFSET + HELLO_SESSION_ID_LEN],
        &session_id
    );
    assert_eq!(ParsedHello::parse(&hello).session_id, session_id);

    let mut moved = hello.clone();
    moved[HELLO_SESSION_ID_OFFSET] ^= 0xff;
    assert!(assert_session_id_window(&moved, &session_id).is_err());
}

#[test]
fn the_extension_order_is_permuted_but_the_set_is_not() {
    let mut orders = HashSet::new();
    let mut sets = HashSet::new();
    for seed in 0..32_u64 {
        let (hello, _, _) = test_hello(&chrome_133(), seed);
        let parsed = ParsedHello::parse(&hello);
        let types: Vec<u16> = parsed.extensions.iter().map(|(kind, _)| *kind).collect();
        let mut sorted = types.clone();
        sorted.sort_unstable();
        assert_eq!(
            sorted.len(),
            sorted.iter().collect::<HashSet<_>>().len(),
            "no extension may be sent twice"
        );
        sets.insert(sorted);
        orders.insert(types);
    }
    assert_eq!(sets.len(), 1, "the same extensions every time");
    assert!(orders.len() > 1, "in more than one order");
}

#[test]
fn chrome_131_moves_only_the_application_settings_code_point() {
    let (hello, _, _) = test_hello(&RealityHelloProfile::Chrome131.table(), 2);
    let parsed = ParsedHello::parse(&hello);
    assert_eq!(parsed.body(0x4469), &[0x00, 0x03, 0x02, b'h', b'2']);
    assert!(
        !parsed.extensions.iter().any(|(kind, _)| *kind == 0x44cd),
        "Chrome 131 does not send the new code point"
    );
}

#[test]
fn a_session_missing_a_share_the_profile_names_is_refused() {
    let session_id = [0_u8; 32];
    let alpn = chrome_alpn_protocols();
    let session = HelloSession {
        client_random: &[0_u8; 32],
        session_id: &session_id,
        server_name: "www.example.com",
        alpn_protocols: &alpn,
        key_shares: &[],
        grease: GreaseValues::from_seed(TEST_SEED),
        ech_grease: EchGreaseParams::new([0_u8; 32], [1, 2, 3], [4; 240]),
        permutation_seed: 0,
    };
    let error = construct_client_hello(&chrome_133(), &session)
        .expect_err("a profile naming a share the session did not generate must fail");
    assert_eq!(error.kind(), ErrorKind::InvalidInput);
}

#[test]
fn test_decode_short_id() {
    let short_id = decode_short_id("0123456789abcdef").unwrap();
    assert_eq!(short_id, [0x01, 0x23, 0x45, 0x67, 0x89, 0xab, 0xcd, 0xef]);

    let short_id2 = decode_short_id("abcdef").unwrap();
    assert_eq!(short_id2, [0xab, 0xcd, 0xef, 0x00, 0x00, 0x00, 0x00, 0x00]);

    let short_id3 = decode_short_id("").unwrap();
    assert_eq!(short_id3, [0; 8]);

    let result = decode_short_id("0123456789abcdef0");
    assert!(result.is_err());
}

#[test]
fn a_short_id_takes_whole_bytes_of_hexadecimal() {
    assert_eq!(decode_short_id("AB").unwrap()[0], 0xab);
    assert!(decode_short_id("abc").is_err());
    assert!(decode_short_id("0g").is_err());
    assert_eq!(decode_hex_to_slice(b"0fF0", 2).unwrap(), vec![0x0f, 0xf0]);
    assert!(decode_hex_to_slice(b"0fF", 2).is_err());
}

#[test]
fn test_decode_public_key() {
    let key_bytes = [0x42u8; 32];
    let encoded = URL_SAFE_NO_PAD.encode(key_bytes);
    let decoded = decode_public_key(&encoded).unwrap();
    assert_eq!(decoded, key_bytes);

    let short_key = [0x42u8; 16];
    let encoded_short = URL_SAFE_NO_PAD.encode(short_key);
    assert!(decode_public_key(&encoded_short).is_err());

    assert!(decode_public_key("not-valid-base64!!!").is_err());
}

fn small_profile(closing: Option<ExtensionSlot>) -> HelloProfile {
    let mut extensions = vec![
        ExtensionSlot::SupportedGroups(vec![GroupSlot::Group(NamedGroup::X25519)]),
        ExtensionSlot::KeyShare(vec![KeyShareSlot::Group(NamedGroup::X25519)]),
        ExtensionSlot::Constant {
            extension_type: 0x1234,
            body: vec![7; 200],
        },
    ];
    extensions.extend(closing);
    HelloProfile {
        name: "small",
        cipher_suites: vec![CipherSuiteSlot::Negotiable(0x1301)],
        extensions,
        permute_extensions: true,
        ech_grease: EchGreaseShape {
            suites: vec![(1, 1)],
            payload_lens: vec![128],
        },
        reuse_classical_key_share: false,
    }
}

#[test]
fn a_table_without_a_padding_slot_is_not_padded() {
    for seed in 0..8 {
        let (hello, _, _) = test_hello(&small_profile(None), seed);
        let parsed = ParsedHello::parse(&hello);
        assert_eq!(parsed.extensions.len(), 3);
        assert!((0x100..0x200).contains(&hello.len()));
        assert!(parsed.extensions.iter().all(|(kind, _)| *kind != 0x0015));
    }
    let (hello, _, _) = test_hello(&small_profile(Some(ExtensionSlot::Padding)), 3);
    let parsed = ParsedHello::parse(&hello);
    assert_eq!(hello.len(), 512);
    assert_eq!(parsed.extensions.len(), 4);
    assert_eq!(parsed.extensions[3].0, 0x0015);
    assert!(parsed.body(0x0015).iter().all(|byte| *byte == 0));
    let named = ExtensionSlot::Constant {
        extension_type: 0x0015,
        body: vec![1],
    };
    let (hello, _, _) = test_hello(&small_profile(Some(named)), 3);
    assert_eq!(ParsedHello::parse(&hello).body(0x0015), &[1]);
}

#[test]
fn another_seed_keeps_the_length_and_everything_before_the_extensions() {
    let session_id = [0x5c_u8; 32];
    let alpn = chrome_alpn_protocols();
    let key_shares = vec![
        (NamedGroup::X25519MlKem768, vec![3; 1216]),
        (NamedGroup::X25519, vec![4; 32]),
    ];
    let hello = |seed: u64| {
        let session = HelloSession {
            client_random: &[0x11_u8; 32],
            session_id: &session_id,
            server_name: "www.example.com",
            alpn_protocols: &alpn,
            key_shares: &key_shares,
            grease: GreaseValues::from_seed(TEST_SEED),
            ech_grease: EchGreaseParams::new([0x7e_u8; 32], [1, 2, 3], [0x5f; 240]),
            permutation_seed: seed,
        };
        construct_client_hello(&chrome_133(), &session).unwrap()
    };
    let first = hello(0);
    let mut set = ParsedHello::parse(&first).extensions;
    set.sort();
    assert_eq!(first, hello(0));
    for seed in 1..16 {
        let other = hello(seed);
        assert_eq!(other.len(), first.len());
        let start = 77 + u16::from_be_bytes([first[71], first[72]]) as usize;
        assert_eq!(other[..start], first[..start]);
        let mut parts = ParsedHello::parse(&other).extensions;
        parts.sort();
        assert_eq!(parts, set);
    }
    assert_ne!(first, hello(1));
}

#[test]
fn only_the_text_that_a_key_is_encoded_to_is_decoded() {
    for key in [[0_u8; 32], [7; 32], [0xfb; 32], [0xff; 32]] {
        let text = URL_SAFE_NO_PAD.encode(key);
        assert_eq!(decode_public_key(&text).unwrap(), key);
        assert!(decode_public_key(&format!("{text}=")).is_err());
        assert!(decode_public_key(&text[..42]).is_err());
    }
    // The last symbol stands for four bits of the key and two that have to be zero.
    let text = URL_SAFE_NO_PAD.encode([7; 32]);
    assert!(text.ends_with('c'), "{text}");
    let off = format!("{}d", &text[..42]);
    assert!(decode_public_key(&off).is_err());
}

#[test]
fn sealing_a_hello_changes_nothing_but_its_session_id() {
    let profile = chrome_133();
    let exchange = ClientKeyExchange::generate(&profile.key_share_groups()).ok().unwrap();
    let public_key = x25519_public_key(&[0x42; 32]).ok().unwrap();
    let identity = ClientIdentity {
        public_key: &public_key,
        short_id: &[1, 2, 3, 4, 5, 6, 7, 8],
        server_name: "www.example.com",
    };
    let draws = |timestamp: u64| HelloDraws {
        client_random: [9; 32],
        timestamp,
        grease: GreaseValues::from_seed(TEST_SEED),
        ech_enc: [3; 32],
        ech_chooser: [0, 1, 2],
        ech_payload: [5; 240],
        permutation_seed: 11,
    };
    let one = prepare_hello(&profile, &identity, &exchange, draws(1_700_000_000)).ok().unwrap();
    let other = prepare_hello(&profile, &identity, &exchange, draws(1_700_000_001)).ok().unwrap();
    let end = HELLO_SESSION_ID_OFFSET + HELLO_SESSION_ID_LEN;
    assert_eq!(one.client_hello.len(), other.client_hello.len());
    assert_eq!(one.client_hello[HELLO_SESSION_ID_OFFSET - 1], 32);
    assert_eq!(
        one.client_hello[..HELLO_SESSION_ID_OFFSET],
        other.client_hello[..HELLO_SESSION_ID_OFFSET]
    );
    assert_ne!(
        one.client_hello[HELLO_SESSION_ID_OFFSET..end],
        other.client_hello[HELLO_SESSION_ID_OFFSET..end]
    );
    assert_eq!(one.client_hello[end..], other.client_hello[end..]);
    assert_eq!(one.record[5..], one.client_hello[..]);
}
