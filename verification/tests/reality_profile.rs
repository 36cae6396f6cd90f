use std::collections::HashSet;

use foxwire::error::ErrorKind;
use foxwire::reality::client_hello::{
    EchGreaseParams, APPLICATION_SETTINGS, APPLICATION_SETTINGS_OLD, ECH_GREASE_TAG_LEN,
    HPKE_AEAD_AES_128_GCM, HPKE_AEAD_CHACHA20_POLY1305, HPKE_KDF_HKDF_SHA256,
};
use foxwire::reality::grease::{is_grease, GreaseSlot, GreaseValues};
use foxwire::reality::group::NamedGroup;
use foxwire::reality::hello_order::{boring_padding, extension_order, write_padding, PADDING};
use foxwire::reality::hello_profile::{
    CipherSuiteSlot, EchGreaseShape, ExtensionSlot, HelloProfile, KeyShareSlot,
};
use foxwire::reality::hello_tables::RealityHelloProfile;

fn profile(
    name: &'static str,
    cipher_suites: Vec<CipherSuiteSlot>,
    extensions: Vec<ExtensionSlot>,
) -> HelloProfile {
    HelloProfile {
        name,
        cipher_suites,
        extensions,
        permute_extensions: false,
        ech_grease: EchGreaseShape { suites: vec![(1, 1)], payload_lens: vec![128] },
        reuse_classical_key_share: false,
    }
}

#[test]
fn grease_values_have_the_repeated_byte_shape() {
    let grease = GreaseValues::from_seed([0x00, 0x1f, 0x2c, 0x30, 0x4d]);
    for slot in [
        GreaseSlot::Cipher,
        GreaseSlot::Group,
        GreaseSlot::Version,
        GreaseSlot::Extension1,
        GreaseSlot::Extension2,
    ] {
        let value = grease.value(slot);
        let [high, low] = value.to_be_bytes();
        assert_eq!(high, low, "GREASE repeats the byte: {value:#06x}");
        assert_eq!(low & 0x0f, 0x0a, "the low nibble is always a: {value:#06x}");
        assert!(is_grease(value), "{value:#06x} is not a reserved point");
    }
    assert_eq!(grease.value(GreaseSlot::Cipher), 0x0a0a);
    assert_eq!(grease.value(GreaseSlot::Group), 0x1a1a);
    assert_eq!(grease.value(GreaseSlot::Version), 0x2a2a);
    assert_eq!(grease.value(GreaseSlot::Extension1), 0x3a3a);
    assert_eq!(grease.value(GreaseSlot::Extension2), 0x4a4a);
}

#[test]
fn the_two_grease_extensions_never_collide() {
    let grease = GreaseValues::from_seed([0, 0, 0, 0x70, 0x7f]);
    assert_ne!(grease.value(GreaseSlot::Extension1), grease.value(GreaseSlot::Extension2));
    for high in 0..16_u8 {
        let grease = GreaseValues::from_seed([0, 0, 0, high << 4, high << 4]);
        assert_ne!(
            grease.value(GreaseSlot::Extension1),
            grease.value(GreaseSlot::Extension2),
            "collision at high nibble {high:#x}"
        );
    }
}

#[test]
fn every_shipped_profile_validates() {
    for name in [RealityHelloProfile::Chrome133, RealityHelloProfile::Chrome131] {
        let profile = name.table();
        assert!(profile.validate().is_ok(), "{} does not validate", profile.name);
        assert_eq!(profile.negotiable_cipher_suites().len(), 3);
        assert_eq!(
            profile.key_share_groups(),
            vec![NamedGroup::X25519MlKem768, NamedGroup::X25519]
        );
    }
    assert_eq!(RealityHelloProfile::default(), RealityHelloProfile::Chrome133);
    assert_eq!(RealityHelloProfile::all().len(), 2);
}

#[test]
fn a_profile_offering_an_unimplemented_cipher_is_refused() {
    let bad = profile("test_bad_cipher", vec![CipherSuiteSlot::Negotiable(0x1304)], vec![]);
    let error = bad.validate().expect_err("0x1304 is not implemented");
    assert_eq!(error.kind(), ErrorKind::InvalidInput);
    assert!(error.message().contains("0x1304"), "{}", error.message());

    let also_bad = profile(
        "test_decorative_but_implemented",
        vec![CipherSuiteSlot::Negotiable(0x1301), CipherSuiteSlot::Decorative(0x1303)],
        vec![],
    );
    let error = also_bad
        .validate()
        .expect_err("a suite this build implements must not be marked decoration");
    assert!(error.message().contains("0x1303"), "{}", error.message());
}

#[test]
fn a_profile_sending_an_unexecutable_key_share_is_refused() {
    let bad = profile(
        "test_bad_group",
        vec![CipherSuiteSlot::Negotiable(0x1301)],
        vec![ExtensionSlot::KeyShare(vec![KeyShareSlot::Group(NamedGroup::Secp384r1)])],
    );
    let error = bad.validate().expect_err("secp384r1 shares are not sent");
    assert!(error.message().contains("secp384r1"), "{}", error.message());
}

#[test]
fn a_profile_with_two_key_share_extensions_is_refused_with_the_count() {
    let share = || ExtensionSlot::KeyShare(vec![KeyShareSlot::Group(NamedGroup::X25519)]);
    let bad = profile(
        "two_shares",
        vec![CipherSuiteSlot::Negotiable(0x1301)],
        vec![share(), share()],
    );
    assert_eq!(
        bad.validate().unwrap_err().message(),
        "REALITY hello profile two_shares: has 2 key_share extensions; exactly one is a ClientHello"
    );
    let misplaced = profile(
        "padded_first",
        vec![CipherSuiteSlot::Negotiable(0x1301)],
        vec![ExtensionSlot::Padding, share()],
    );
    assert!(misplaced.validate().unwrap_err().message().contains("other than last"));
    let unlisted = profile(
        "unlisted",
        vec![CipherSuiteSlot::Negotiable(0x1301)],
        vec![share()],
    );
    assert!(unlisted
        .validate()
        .unwrap_err()
        .message()
        .contains("without listing the group in supported_groups"));
    let lonely = profile(
        "lonely_grease",
        vec![CipherSuiteSlot::Negotiable(0x1301)],
        vec![share(), ExtensionSlot::Grease { slot: GreaseSlot::Extension1, body: vec![] }],
    );
    assert!(lonely.validate().unwrap_err().message().contains("exactly two GREASE"));
    let nothing = profile("nothing", vec![CipherSuiteSlot::Grease], vec![]);
    assert!(nothing.validate().unwrap_err().message().contains("no cipher suite"));
}

#[test]
fn padding_only_fires_inside_the_boring_window() {
    assert_eq!(boring_padding(0xff), None);
    assert_eq!(boring_padding(0x200), None);
    assert_eq!(boring_padding(1700), None, "a hello with an ML-KEM share");
    assert_eq!(boring_padding(0x100), Some(0x100 - 4));
    assert_eq!(boring_padding(0x1f0), Some(16 - 4));
    assert_eq!(boring_padding(0x1ff), Some(1));
    assert_eq!(boring_padding(0x1fc), Some(1));

    let mut out = Vec::new();
    write_padding(&mut out, 0x1f0).unwrap();
    assert_eq!(&out[..2], &PADDING.to_be_bytes());
    assert_eq!(u16::from_be_bytes([out[2], out[3]]) as usize, 12);
    assert_eq!(out.len(), 4 + 12);
    assert!(out[4..].iter().all(|byte| *byte == 0));

    let mut nothing = Vec::new();
    write_padding(&mut nothing, 1700).unwrap();
    assert!(nothing.is_empty(), "no zero-length padding extension");
}

#[test]
fn permutation_keeps_grease_and_padding_where_they_are() {
    let profile = RealityHelloProfile::Chrome133.table();
    let pinned: Vec<usize> = profile
        .extensions
        .iter()
        .enumerate()
        .filter(|(_, slot)| slot.position_is_pinned())
        .map(|(index, _)| index)
        .collect();
    assert_eq!(pinned.len(), 3, "two GREASE slots and padding");

    let mut orders = HashSet::new();
    for seed in 0..64_u64 {
        let order = extension_order(&profile, seed);
        assert_eq!(order.len(), profile.extensions.len());
        let unique: HashSet<usize> = order.iter().copied().collect();
        assert_eq!(unique.len(), order.len(), "the permutation must be a bijection");
        for index in &pinned {
            assert_eq!(order[*index], *index, "pinned slot {index} moved");
        }
        orders.insert(order);
    }
    assert!(orders.len() > 1, "a permutation that never permutes is a fixed order");
}

#[test]
fn ech_grease_body_matches_the_draft_shape() {
    for choice in 0..8_u8 {
        let params = EchGreaseParams::new([0x5a_u8; 32], [9, choice, choice / 2], [7; 240]);
        let mut body = Vec::new();
        params.write_body(&mut body);

        assert_eq!(body[0], 0x00, "ECHClientHello.type = outer");
        let kdf = u16::from_be_bytes([body[1], body[2]]);
        let aead = u16::from_be_bytes([body[3], body[4]]);
        assert_eq!(kdf, HPKE_KDF_HKDF_SHA256);
        assert!([HPKE_AEAD_AES_128_GCM, HPKE_AEAD_CHACHA20_POLY1305].contains(&aead));
        assert_eq!(body[5], 9);
        let enc_len = u16::from_be_bytes([body[6], body[7]]) as usize;
        assert_eq!(enc_len, 32);
        assert_eq!(&body[8..8 + 32], &[0x5a_u8; 32]);
        let payload_len = u16::from_be_bytes([body[40], body[41]]) as usize;
        assert!(
            [128, 160, 192, 224]
                .iter()
                .any(|candidate| candidate + ECH_GREASE_TAG_LEN == payload_len),
            "payload {payload_len} is not a candidate length plus the AEAD tag"
        );
        assert_eq!(body.len(), 42 + payload_len);
    }
}

#[test]
fn the_two_chrome_profiles_differ_only_in_the_alps_code_point() {
    let points = |profile: &HelloProfile| -> Vec<u16> {
        profile
            .extensions
            .iter()
            .map(|slot| match slot {
                ExtensionSlot::Constant { extension_type, .. } => *extension_type,
                _ => 0xffff,
            })
            .collect()
    };
    let a = points(&RealityHelloProfile::Chrome133.table());
    let b = points(&RealityHelloProfile::Chrome131.table());
    let differences: Vec<(u16, u16)> = a
        .iter()
        .zip(&b)
        .filter(|(x, y)| x != y)
        .map(|(x, y)| (*x, *y))
        .collect();
    assert_eq!(differences, vec![(APPLICATION_SETTINGS, APPLICATION_SETTINGS_OLD)]);
}

#[test]
fn group_code_points_match_the_iana_registry() {
    assert_eq!(NamedGroup::Secp256r1.id(), 0x0017);
    assert_eq!(NamedGroup::Secp384r1.id(), 0x0018);
    assert_eq!(NamedGroup::X25519.id(), 0x001d);
    assert_eq!(NamedGroup::X25519MlKem768.id(), 0x11ec);
    for group in [
        NamedGroup::Secp256r1,
        NamedGroup::Secp384r1,
        NamedGroup::X25519,
        NamedGroup::X25519MlKem768,
    ] {
        assert_eq!(NamedGroup::from_id(group.id()), Some(group));
    }
    assert_eq!(NamedGroup::from_id(0x11eb), None);
}

#[test]
fn only_the_implemented_groups_are_executable() {
    assert!(NamedGroup::X25519.is_executable());
    assert!(NamedGroup::X25519MlKem768.is_executable());
    assert!(NamedGroup::Secp256r1.is_executable());

    assert!(!NamedGroup::Secp384r1.is_executable());
    assert!(!NamedGroup::Secp521r1.is_executable());
    assert!(!NamedGroup::Ffdhe2048.is_executable());
    assert!(!NamedGroup::Ffdhe3072.is_executable());
}
