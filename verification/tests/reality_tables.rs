use std::sync::Arc;

use foxwire::error::WireError;
use foxwire::json::{read_json, Json};
use foxwire::reality::client_connection::{RealityClientConfig, RealityClientConnection};
use foxwire::reality::client_hello::{
    ALPN, ENCRYPTED_CLIENT_HELLO, KEY_SHARE, RENEGOTIATION_INFO, SERVER_NAME, SUPPORTED_GROUPS,
    SUPPORTED_VERSIONS,
};
use foxwire::reality::driver::RealityHello;
use foxwire::reality::grease::is_grease;
use foxwire::reality::hello_order::PADDING;
use foxwire::reality::hello_profile::{
    CipherSuiteSlot, ExtensionSlot, GroupSlot, HelloProfile, KeyShareSlot, VersionSlot,
};
use foxwire::reality::hello_tables::{chrome_alpn_protocols, RealityHelloProfile};
use foxwire::reality::key_exchange::x25519_public_key;
use foxwire::reality::messages::INITIAL_RECORD_VERSION;
use foxwire::reality::runtime_tables::{
    clear_fingerprint_tables, install_fingerprint_tables, parse_document, profile_named,
    slot_index, using_downloaded_fingerprint_tables, FingerprintTables, MAX_DOCUMENT_BYTES,
};
use foxwire::reality::table_fields::hex_body;
use serde_json::Value;
use sha2::{Digest, Sha256};

const CHROME_133: &str = r#"{
  "name": "chrome_133",
  "fingerprint_sha256": "ccc4588bc582df5bff330db1cdc09994d9978350b5559d0b97e81eff4b5d636a",
  "fingerprint": {
    "legacy_version": "0x0303",
    "record_layer_version": {"initial_client_hello": "0x0301", "subsequent_records": "0x0303"},
    "legacy_session_id_bytes": 32,
    "compression_methods": ["0x00"],
    "alpn": ["h2", "http/1.1"],
    "cipher_suites": [
      {"value": "GREASE", "role": "grease"},
      {"value": "0x1301", "role": "negotiable"},
      {"value": "0x1302", "role": "negotiable"},
      {"value": "0x1303", "role": "negotiable"},
      {"value": "0xc02b", "role": "decorative"},
      {"value": "0xc02f", "role": "decorative"},
      {"value": "0xc02c", "role": "decorative"},
      {"value": "0xc030", "role": "decorative"},
      {"value": "0xcca9", "role": "decorative"},
      {"value": "0xcca8", "role": "decorative"},
      {"value": "0xc013", "role": "decorative"},
      {"value": "0xc014", "role": "decorative"},
      {"value": "0x009c", "role": "decorative"},
      {"value": "0x009d", "role": "decorative"},
      {"value": "0x002f", "role": "decorative"},
      {"value": "0x0035", "role": "decorative"}
    ],
    "supported_groups": [
      {"value": "GREASE"},
      {"value": "0x11ec"},
      {"value": "0x001d"},
      {"value": "0x0017"},
      {"value": "0x0018"}
    ],
    "key_shares": [
      {"value": "GREASE"},
      {"value": "0x11ec"},
      {"value": "0x001d"}
    ],
    "supported_versions": [
      {"value": "GREASE"},
      {"value": "0x0304"},
      {"value": "0x0303"}
    ],
    "signature_algorithms": ["0x0403", "0x0804", ["0x0401", "rsa_pkcs1_sha256"], "0x0503", "0x0805", "0x0501", "0x0806", "0x0601"],
    "extension_order": [
      {"order": 1, "type": "GREASE", "body": ""},
      {"order": 2, "type": "0x0000", "body": "per_connection"},
      {"order": 3, "type": "0x0017", "body": ""},
      {"order": 4, "type": "0xff01", "body": "00"},
      {"order": 5, "type": "0x000a", "body": "table"},
      {"order": 6, "type": "0x000b", "body": "01 00"},
      {"order": 7, "type": "0x0023", "body": ""},
      {"order": 8, "type": "0x0010", "body": "table"},
      {"order": 9, "type": "0x0005", "body": "01 00 00 00 00"},
      {"order": 10, "type": "0x000d", "body": "table"},
      {"order": 11, "type": "0x0012", "body": ""},
      {"order": 12, "type": "0x0033", "body": "per_connection"},
      {"order": 13, "type": "0x002d", "body": "01 01"},
      {"order": 14, "type": "0x002b", "body": "table"},
      {"order": 15, "type": "0x001b", "body": "02 00 02"},
      {"order": 16, "type": "0x44cd", "body": "00 03 02 68 32"},
      {"order": 17, "type": "0xfe0d", "body": "per_connection_grease"},
      {"order": 18, "type": "GREASE", "body": "00"},
      {"order": 19, "type": "0x0015", "body": "conditional"}
    ],
    "permute_extensions": true,
    "ech_grease": {"kdf": "HKDF-SHA256", "aead_candidates": ["AES-128-GCM", "ChaCha20-Poly1305"], "payload_lengths": [128, 160, 192, 224]},
    "key_share_reuse": null
  }
}"#;

const CHROME_131: &str = r#"{
  "name": "chrome_131",
  "fingerprint_sha256": "94a821ad44890d71a50740cab693f7dad3876a78843f9010bff18fbfb3575c9d",
  "fingerprint": {
    "legacy_version": "0x0303",
    "record_layer_version": {"initial_client_hello": "0x0301", "subsequent_records": "0x0303"},
    "legacy_session_id_bytes": 32,
    "compression_methods": ["0x00"],
    "alpn": ["h2", "http/1.1"],
    "cipher_suites": [
      {"value": "GREASE", "role": "grease"},
      {"value": "0x1301", "role": "negotiable"},
      {"value": "0x1302", "role": "negotiable"},
      {"value": "0x1303", "role": "negotiable"},
      {"value": "0xc02b", "role": "decorative"},
      {"value": "0xc02f", "role": "decorative"},
      {"value": "0xc02c", "role": "decorative"},
      {"value": "0xc030", "role": "decorative"},
      {"value": "0xcca9", "role": "decorative"},
      {"value": "0xcca8", "role": "decorative"},
      {"value": "0xc013", "role": "decorative"},
      {"value": "0xc014", "role": "decorative"},
      {"value": "0x009c", "role": "decorative"},
      {"value": "0x009d", "role": "decorative"},
      {"value": "0x002f", "role": "decorative"},
      {"value": "0x0035", "role": "decorative"}
    ],
    "supported_groups": [
      {"value": "GREASE"},
      {"value": "0x11ec"},
      {"value": "0x001d"},
      {"value": "0x0017"},
      {"value": "0x0018"}
    ],
    "key_shares": [
      {"value": "GREASE"},
      {"value": "0x11ec"},
      {"value": "0x001d"}
    ],
    "supported_versions": [
      {"value": "GREASE"},
      {"value": "0x0304"},
      {"value": "0x0303"}
    ],
    "signature_algorithms": ["0x0403", "0x0804", ["0x0401", "rsa_pkcs1_sha256"], "0x0503", "0x0805", "0x0501", "0x0806", "0x0601"],
    "extension_order": [
      {"order": 1, "type": "GREASE", "body": ""},
      {"order": 2, "type": "0x0000", "body": "per_connection"},
      {"order": 3, "type": "0x0017", "body": ""},
      {"order": 4, "type": "0xff01", "body": "00"},
      {"order": 5, "type": "0x000a", "body": "table"},
      {"order": 6, "type": "0x000b", "body": "01 00"},
      {"order": 7, "type": "0x0023", "body": ""},
      {"order": 8, "type": "0x0010", "body": "table"},
      {"order": 9, "type": "0x0005", "body": "01 00 00 00 00"},
      {"order": 10, "type": "0x000d", "body": "table"},
      {"order": 11, "type": "0x0012", "body": ""},
      {"order": 12, "type": "0x0033", "body": "per_connection"},
      {"order": 13, "type": "0x002d", "body": "01 01"},
      {"order": 14, "type": "0x002b", "body": "table"},
      {"order": 15, "type": "0x001b", "body": "02 00 02"},
      {"order": 16, "type": "0x4469", "body": "00 03 02 68 32"},
      {"order": 17, "type": "0xfe0d", "body": "per_connection_grease"},
      {"order": 18, "type": "GREASE", "body": "00"},
      {"order": 19, "type": "0x0015", "body": "conditional"}
    ],
    "permute_extensions": true,
    "ech_grease": {"kdf": "HKDF-SHA256", "aead_candidates": ["AES-128-GCM", "ChaCha20-Poly1305"], "payload_lengths": [128, 160, 192, 224]},
    "key_share_reuse": null
  }
}"#;

const VECTORS: [(RealityHelloProfile, &str); 2] = [
    (RealityHelloProfile::Chrome133, CHROME_133),
    (RealityHelloProfile::Chrome131, CHROME_131),
];

fn pairs() -> Vec<(&'static str, HelloProfile)> {
    VECTORS
        .iter()
        .map(|(profile, json)| (*json, profile.table()))
        .collect()
}

fn table(json: &str) -> Value {
    serde_json::from_str(json).expect("fingerprint file is not valid JSON")
}

fn hex16(value: &Value) -> u16 {
    let text = value.as_str().expect("code point must be a string");
    let digits = text
        .strip_prefix("0x")
        .unwrap_or_else(|| panic!("code point {text} is not 0x-prefixed"));
    u16::from_str_radix(digits, 16).unwrap_or_else(|_| panic!("code point {text} is not hex"))
}

fn fingerprint(json: &str) -> Value {
    table(json)["fingerprint"].clone()
}

fn slot_code_point(slot: &ExtensionSlot) -> Option<u16> {
    match slot {
        ExtensionSlot::Constant { extension_type, .. } => Some(*extension_type),
        ExtensionSlot::Grease { .. } => None,
        ExtensionSlot::ServerName => Some(SERVER_NAME),
        ExtensionSlot::SupportedGroups(_) => Some(SUPPORTED_GROUPS),
        ExtensionSlot::KeyShare(_) => Some(KEY_SHARE),
        ExtensionSlot::Alpn => Some(ALPN),
        ExtensionSlot::SupportedVersions(_) => Some(SUPPORTED_VERSIONS),
        ExtensionSlot::EchGrease => Some(ENCRYPTED_CLIENT_HELLO),
        ExtensionSlot::Padding => Some(PADDING),
    }
}

fn digest_of(canonical: &str) -> String {
    Sha256::digest(canonical.as_bytes())
        .iter()
        .map(|byte| format!("{byte:02x}"))
        .collect()
}

fn assert_digest(json: &str) {
    let file = table(json);
    let canonical = canonical_json(&file["fingerprint"]);
    assert!(
        canonical.is_ascii(),
        "fingerprint table contains non-ASCII; the digest would depend on an \
         escaping convention"
    );
    assert_eq!(
        file["fingerprint_sha256"].as_str().expect("digest field"),
        digest_of(&canonical),
        "fingerprint_sha256 does not cover the fingerprint object; re-hash the file"
    );
}

fn canonical_json(value: &Value) -> String {
    match value {
        Value::Object(map) => {
            let mut keys: Vec<&String> = map.keys().collect();
            keys.sort();
            let body: Vec<String> = keys
                .iter()
                .map(|key| {
                    format!(
                        "{}:{}",
                        serde_json::to_string(key).expect("key"),
                        canonical_json(&map[*key])
                    )
                })
                .collect();
            format!("{{{}}}", body.join(","))
        }
        Value::Array(items) => {
            let body: Vec<String> = items.iter().map(canonical_json).collect();
            format!("[{}]", body.join(","))
        }
        other => serde_json::to_string(other).expect("scalar"),
    }
}

#[test]
fn the_committed_fingerprints_are_self_consistent() {
    for (json, _) in pairs() {
        assert_digest(json);
    }
}

#[test]
fn every_profile_has_a_committed_vector() {
    assert_eq!(
        VECTORS.len(),
        RealityHelloProfile::all().len(),
        "a profile exists with no committed fingerprint vector"
    );
    for profile in RealityHelloProfile::all() {
        assert!(
            VECTORS.iter().any(|(candidate, _)| *candidate == profile),
            "{profile:?} has no vector"
        );
    }
    for (json, profile) in pairs() {
        assert_eq!(
            table(json)["name"].as_str(),
            Some(profile.name),
            "vector paired with the wrong profile"
        );
    }
}

#[test]
fn cipher_suites_match_the_committed_table() {
    for (json, profile) in pairs() {
        let expected = fingerprint(json)["cipher_suites"].clone();
        let expected = expected.as_array().expect("cipher_suites is a list");
        assert_eq!(
            expected.len(),
            profile.cipher_suites.len(),
            "{}: cipher count",
            profile.name
        );
        for (index, (entry, slot)) in expected.iter().zip(&profile.cipher_suites).enumerate() {
            let role = entry["role"].as_str().expect("role");
            match slot {
                CipherSuiteSlot::Grease => assert_eq!(
                    role, "grease",
                    "{} cipher {index}: table says GREASE",
                    profile.name
                ),
                CipherSuiteSlot::Negotiable(id) => {
                    assert_eq!(role, "negotiable", "{} cipher {index}", profile.name);
                    assert_eq!(
                        hex16(&entry["value"]),
                        *id,
                        "{} cipher {index}",
                        profile.name
                    );
                }
                CipherSuiteSlot::Decorative(id) => {
                    assert_eq!(role, "decorative", "{} cipher {index}", profile.name);
                    assert_eq!(
                        hex16(&entry["value"]),
                        *id,
                        "{} cipher {index}",
                        profile.name
                    );
                }
            }
        }
    }
}

#[test]
fn extension_order_matches_the_committed_table() {
    for (json, profile) in pairs() {
        let expected = fingerprint(json)["extension_order"].clone();
        let expected = expected.as_array().expect("extension_order is a list");
        assert_eq!(
            expected.len(),
            profile.extensions.len(),
            "{}: extension count",
            profile.name
        );
        for (index, (entry, slot)) in expected.iter().zip(&profile.extensions).enumerate() {
            assert_eq!(
                entry["order"].as_u64().expect("order"),
                index as u64 + 1,
                "{}: extension_order is not 1-based dense",
                profile.name
            );
            let declared = entry["type"].as_str().expect("type");
            match slot_code_point(slot) {
                None => assert_eq!(
                    declared, "GREASE",
                    "{} extension {index}: table has a GREASE slot",
                    profile.name
                ),
                Some(code_point) => assert_eq!(
                    hex16(&entry["type"]),
                    code_point,
                    "{} extension {index} ({declared})",
                    profile.name
                ),
            }
        }
    }
}

#[test]
fn groups_shares_versions_and_alpn_match_the_committed_table() {
    for (json, profile) in pairs() {
        let fp = fingerprint(json);
        let name = profile.name;

        let groups = find_groups(&profile);
        let expected = fp["supported_groups"].as_array().expect("groups").clone();
        assert_eq!(expected.len(), groups.len(), "{name}: group count");
        for (index, (entry, slot)) in expected.iter().zip(groups).enumerate() {
            match slot {
                GroupSlot::Grease => {
                    assert_eq!(
                        entry["value"].as_str(),
                        Some("GREASE"),
                        "{name} group {index}"
                    )
                }
                GroupSlot::Group(group) => assert_eq!(
                    hex16(&entry["value"]),
                    group.id(),
                    "{name} group {index} ({})",
                    group.name()
                ),
            }
        }

        let shares = find_key_shares(&profile);
        let expected = fp["key_shares"].as_array().expect("key_shares").clone();
        assert_eq!(expected.len(), shares.len(), "{name}: key share count");
        for (index, (entry, slot)) in expected.iter().zip(shares).enumerate() {
            match slot {
                KeyShareSlot::Grease => {
                    assert_eq!(
                        entry["value"].as_str(),
                        Some("GREASE"),
                        "{name} share {index}"
                    )
                }
                KeyShareSlot::Group(group) => assert_eq!(
                    hex16(&entry["value"]),
                    group.id(),
                    "{name} share {index} ({})",
                    group.name()
                ),
            }
        }

        let versions = find_versions(&profile);
        let expected = fp["supported_versions"]
            .as_array()
            .expect("supported_versions")
            .clone();
        assert_eq!(expected.len(), versions.len(), "{name}: version count");
        for (index, (entry, slot)) in expected.iter().zip(versions).enumerate() {
            match slot {
                VersionSlot::Grease => assert_eq!(
                    entry["value"].as_str(),
                    Some("GREASE"),
                    "{name} version {index}"
                ),
                VersionSlot::Version(version) => {
                    assert_eq!(hex16(&entry["value"]), *version, "{name} version {index}")
                }
            }
        }

        let alpn: Vec<&str> = fp["alpn"]
            .as_array()
            .expect("alpn")
            .iter()
            .map(|entry| entry.as_str().expect("alpn entry"))
            .collect();
        assert_eq!(alpn, chrome_alpn_protocols(), "{name}: ALPN");
    }
}

#[test]
fn the_record_layer_version_matches_the_committed_table() {
    for (json, _) in pairs() {
        let fp = fingerprint(json);
        let initial = &fp["record_layer_version"]["initial_client_hello"];
        assert_eq!(
            hex16(initial).to_be_bytes(),
            INITIAL_RECORD_VERSION,
            "committed table and INITIAL_RECORD_VERSION disagree"
        );
        assert_eq!(
            fp["record_layer_version"]["subsequent_records"].as_str(),
            Some("0x0303")
        );
    }
}

fn find_groups(profile: &HelloProfile) -> &[GroupSlot] {
    profile
        .extensions
        .iter()
        .find_map(|slot| match slot {
            ExtensionSlot::SupportedGroups(groups) => Some(groups.as_slice()),
            _ => None,
        })
        .expect("profile has supported_groups")
}

fn find_key_shares(profile: &HelloProfile) -> &[KeyShareSlot] {
    profile
        .extensions
        .iter()
        .find_map(|slot| match slot {
            ExtensionSlot::KeyShare(entries) => Some(entries.as_slice()),
            _ => None,
        })
        .expect("profile has key_share")
}

fn find_versions(profile: &HelloProfile) -> &[VersionSlot] {
    profile
        .extensions
        .iter()
        .find_map(|slot| match slot {
            ExtensionSlot::SupportedVersions(versions) => Some(versions.as_slice()),
            _ => None,
        })
        .expect("profile has supported_versions")
}

fn object(entries: Vec<(&str, Value)>) -> Value {
    let mut map = serde_json::Map::new();
    for (key, value) in entries {
        map.insert(key.to_owned(), value);
    }
    Value::Object(map)
}

fn committed_document() -> Value {
    let profiles: Vec<Value> = VECTORS.iter().map(|(_, json)| table(json)).collect();
    object(vec![
        ("schema", Value::from(1)),
        ("generated_at", Value::from("2026-08-17T00:00:00Z")),
        ("profiles", Value::Array(profiles)),
    ])
}

fn committed_profiles(document: &Value) -> Vec<RealityHelloProfile> {
    document["profiles"]
        .as_array()
        .expect("profiles")
        .iter()
        .filter_map(|entry| profile_named(entry["name"].as_str().expect("name")))
        .collect()
}

fn parse(document: &Value) -> Result<Vec<Option<Arc<HelloProfile>>>, WireError> {
    parse_document(document.to_string().as_bytes())
}

fn refusal(document: &Value) -> String {
    match parse(document) {
        Ok(_) => panic!("document was accepted; it must be refused"),
        Err(error) => error.message().to_owned(),
    }
}

fn table_of(
    slots: &[Option<Arc<HelloProfile>>],
    profile: RealityHelloProfile,
) -> Option<&Arc<HelloProfile>> {
    slots[slot_index(profile)].as_ref()
}

fn rehash(mut document: Value) -> Value {
    for entry in document["profiles"].as_array_mut().expect("profiles") {
        let canonical = canonical_json(&entry["fingerprint"]);
        entry["fingerprint_sha256"] = Value::String(digest_of(&canonical));
    }
    document
}

fn edited(name: &str, edit: impl Fn(&mut Value)) -> Value {
    let mut document = committed_document();
    let entry = document["profiles"]
        .as_array_mut()
        .expect("profiles")
        .iter_mut()
        .find(|entry| entry["name"] == name)
        .unwrap_or_else(|| panic!("no committed vector for {name}"));
    edit(&mut entry["fingerprint"]);
    rehash(document)
}

fn a_covered_profile() -> (RealityHelloProfile, &'static str) {
    let document = committed_document();
    let profile = *committed_profiles(&document)
        .first()
        .expect("at least one committed vector matches a compiled profile");
    (profile, profile.table().name)
}

#[test]
fn every_committed_table_loads_back_to_the_compiled_one() {
    let document = committed_document();
    let covered = committed_profiles(&document);
    let slots = parse(&document).expect("committed document must load");
    assert_eq!(slots.iter().flatten().count(), covered.len());
    for profile in covered {
        let built_in = profile.table();
        let loaded = table_of(&slots, profile).expect("table");
        assert_eq!(loaded.name, built_in.name);
        assert_eq!(
            loaded.cipher_suites, built_in.cipher_suites,
            "{}: cipher suites",
            built_in.name
        );
        assert_eq!(
            loaded.extensions, built_in.extensions,
            "{}: extensions",
            built_in.name
        );
        assert_eq!(
            loaded.permute_extensions, built_in.permute_extensions,
            "{}: permutation",
            built_in.name
        );
        assert_eq!(
            loaded.ech_grease, built_in.ech_grease,
            "{}: ECH GREASE shape",
            built_in.name
        );
        assert_eq!(
            loaded.reuse_classical_key_share, built_in.reuse_classical_key_share,
            "{}: key share reuse",
            built_in.name
        );
    }
}

#[test]
fn replaced_tables_are_let_go() {
    let mut tables = FingerprintTables::new();
    let mut document = committed_document();
    document["profiles"].as_array_mut().unwrap().truncate(1);
    let encoded = serde_json::to_vec(&document).unwrap();
    install_fingerprint_tables(&mut tables, &encoded).unwrap();
    let (covered, _) = a_covered_profile();
    let profile = tables.table_for(covered);
    let old = Arc::downgrade(&profile);
    let mut invalid = document.clone();
    invalid["profiles"]
        .as_array_mut()
        .unwrap()
        .push(document["profiles"][0].clone());
    let invalid = serde_json::to_vec(&invalid).unwrap();
    for _ in 0..1_000 {
        assert!(install_fingerprint_tables(&mut tables, &invalid).is_err());
    }
    assert_eq!(Arc::strong_count(&profile), 2);
    for revision in 0..64 {
        document["revision"] = Value::from(revision);
        install_fingerprint_tables(&mut tables, &serde_json::to_vec(&document).unwrap()).unwrap();
    }
    assert_eq!(Arc::strong_count(&profile), 1);
    profile.validate().unwrap();
    clear_fingerprint_tables(&mut tables);
    drop(profile);
    assert!(old.upgrade().is_none());
    assert!(!using_downloaded_fingerprint_tables(&tables));
}

#[test]
fn a_changed_body_reaches_the_loaded_table() {
    let (profile, name) = a_covered_profile();
    let document = edited(name, |fingerprint| {
        let slot = fingerprint["extension_order"]
            .as_array_mut()
            .expect("extension_order")
            .iter_mut()
            .find(|entry| entry["type"] == "0xff01")
            .expect("renegotiation_info");
        slot["body"] = Value::String("0000".to_owned());
    });
    let slots = parse(&document).expect("re-hashed document must load");
    let loaded = table_of(&slots, profile).expect("table");
    assert!(
        loaded.extensions.contains(&ExtensionSlot::Constant {
            extension_type: RENEGOTIATION_INFO,
            body: vec![0x00, 0x00],
        }),
        "{name}: the downloaded body is what the table carries"
    );
    assert_ne!(
        loaded.extensions,
        profile.table().extensions,
        "{name}: a changed table must not be silently replaced by the built-in one"
    );
}

#[test]
fn a_profile_whose_digest_does_not_cover_it_drops_the_whole_document() {
    let (_, name) = a_covered_profile();
    let mut document = committed_document();
    let entry = document["profiles"]
        .as_array_mut()
        .expect("profiles")
        .iter_mut()
        .find(|entry| entry["name"] == name)
        .expect("entry");
    entry["fingerprint"]["permute_extensions"] = Value::Bool(
        !entry["fingerprint"]["permute_extensions"]
            .as_bool()
            .expect("bool"),
    );
    let error = refusal(&document);
    assert!(error.contains("hashes to"), "{error}");
}

#[test]
fn a_name_this_build_does_not_implement_is_ignored_rather_than_invented() {
    let document = committed_document();
    let covered = committed_profiles(&document);
    let dropped = *covered.first().expect("a covered profile");
    let mut renamed = document;
    renamed["profiles"]
        .as_array_mut()
        .expect("profiles")
        .iter_mut()
        .find(|entry| entry["name"] == dropped.table().name)
        .expect("entry")["name"] = Value::String("chrome_999".to_owned());
    let slots = parse(&renamed).expect("an unknown name is data, not an error");
    assert_eq!(
        slots.iter().flatten().count(),
        covered.len() - 1,
        "the unknown name must not have created a table"
    );
    assert!(
        table_of(&slots, dropped).is_none(),
        "{} keeps its built-in table",
        dropped.table().name
    );
}

#[test]
fn ech_payload_cannot_exceed_the_client_hello_buffer() {
    let document = edited("chrome_133", |fingerprint| {
        fingerprint["ech_grease"]["payload_lengths"] = Value::Array(vec![Value::from(225)]);
    });
    assert!(refusal(&document).contains("payload length"));
}

#[test]
fn a_table_that_asks_for_a_frozen_field_is_refused() {
    let (_, name) = a_covered_profile();
    let cases: Vec<(Value, &str)> = vec![
        (
            edited(name, |fingerprint| {
                fingerprint["legacy_version"] = Value::String("0x0304".to_owned());
            }),
            "legacy_version",
        ),
        (
            edited(name, |fingerprint| {
                fingerprint["legacy_session_id_bytes"] = Value::from(0);
            }),
            "legacy session id",
        ),
        (
            edited(name, |fingerprint| {
                fingerprint["alpn"] = Value::Array(vec![Value::from("h3")]);
            }),
            "ALPN list",
        ),
        (
            edited(name, |fingerprint| {
                fingerprint["compression_methods"] = Value::Array(vec![Value::from("0x01")]);
            }),
            "compression method",
        ),
        (
            edited(name, |fingerprint| {
                fingerprint["record_layer_version"]["initial_client_hello"] =
                    Value::String("0x0303".to_owned());
            }),
            "record_layer_version",
        ),
    ];
    for (document, expected) in cases {
        let error = refusal(&document);
        assert!(error.contains(expected), "{error}");
    }
}

#[test]
fn a_table_that_cannot_produce_a_hello_is_refused() {
    let (_, name) = a_covered_profile();
    let document = edited(name, |fingerprint| {
        let slots = fingerprint["extension_order"]
            .as_array_mut()
            .expect("extension_order");
        slots.retain(|entry| entry["type"] != "0x0033");
        for (index, entry) in slots.iter_mut().enumerate() {
            entry["order"] = Value::from(index as u64 + 1);
        }
    });
    let error = refusal(&document);
    assert!(error.contains("key_share"), "{error}");
}

#[test]
fn a_table_offering_an_unimplemented_suite_as_negotiable_is_refused() {
    let (_, name) = a_covered_profile();
    let document = edited(name, |fingerprint| {
        for entry in fingerprint["cipher_suites"]
            .as_array_mut()
            .expect("ciphers")
        {
            if entry["role"] == "decorative" {
                entry["role"] = Value::String("negotiable".to_owned());
                break;
            }
        }
    });
    let error = refusal(&document);
    assert!(error.contains("does not implement it"), "{error}");
}

#[test]
fn an_unreadable_extension_body_is_refused() {
    let (_, name) = a_covered_profile();
    let document = edited(name, |fingerprint| {
        fingerprint["extension_order"]
            .as_array_mut()
            .expect("extension_order")
            .iter_mut()
            .find(|entry| entry["type"] == "0xff01")
            .expect("renegotiation_info")["body"] =
            Value::String("whatever the client likes".to_owned());
    });
    let error = refusal(&document);
    assert!(error.contains("not hex"), "{error}");
}

#[test]
fn malformed_documents_are_refused_whole() {
    for document in [
        Value::String("not json".to_owned()),
        Value::Array(Vec::new()),
        object(vec![("profiles", Value::Array(Vec::new()))]),
        object(vec![
            ("schema", Value::from(2)),
            ("profiles", Value::Array(Vec::new())),
        ]),
        object(vec![("schema", Value::from(1))]),
    ] {
        let _ = refusal(&document);
    }
    assert!(parse_document(b"not json at all").is_err());
    let document = committed_document().to_string();
    assert!(parse_document(&document.as_bytes()[..document.len() / 2]).is_err());
    assert!(parse_document(&vec![b' '; MAX_DOCUMENT_BYTES + 1]).is_err());
}

#[test]
fn other_unreadable_fields_are_refused() {
    let (_, name) = a_covered_profile();
    let cases: Vec<(Value, &str)> = vec![
        (
            edited(name, |fingerprint| {
                fingerprint["cipher_suites"][1]["role"] = Value::from("optional");
            }),
            "gives a cipher suite the unknown role optional",
        ),
        (
            edited(name, |fingerprint| {
                fingerprint["cipher_suites"][1]["value"] = Value::from("1301");
            }),
            "code point 1301 is not 0x-prefixed",
        ),
        (
            edited(name, |fingerprint| {
                fingerprint["supported_groups"][1]["value"] = Value::from("0x9999");
            }),
            "names group 0x9999, which this build has no name for",
        ),
        (
            edited(name, |fingerprint| {
                fingerprint["key_shares"] = Value::Null;
            }),
            "key_shares is not a list",
        ),
        (
            edited(name, |fingerprint| {
                fingerprint["supported_versions"][1]["value"] = Value::from(4);
            }),
            "has a supported_versions entry with no value",
        ),
        (
            edited(name, |fingerprint| {
                fingerprint["extension_order"][3]["order"] = Value::from(9);
            }),
            "extension_order is not 1-based dense at position 3",
        ),
        (
            edited(name, |fingerprint| {
                fingerprint["extension_order"][3]["body"] = Value::from("000");
            }),
            "has an extension body with an odd number of hex digits",
        ),
        (
            edited(name, |fingerprint| {
                fingerprint["ech_grease"]["kdf"] = Value::from("HKDF-SHA512");
            }),
            "asks for ECH GREASE KDF Some(\"HKDF-SHA512\"), which this build does not send",
        ),
        (
            edited(name, |fingerprint| {
                fingerprint["ech_grease"]["aead"] = Value::from("AES-128-GCM");
            }),
            "must name exactly one of aead or aead_candidates",
        ),
        (
            edited(name, |fingerprint| {
                fingerprint["ech_grease"] = Value::Null;
            }),
            "sends an ECH GREASE extension but declares no ech_grease shape",
        ),
        (
            edited(name, |fingerprint| {
                fingerprint["permute_extensions"] = Value::from("yes");
            }),
            "does not say whether it permutes",
        ),
    ];
    for (document, expected) in cases {
        let error = refusal(&document);
        assert!(error.contains(expected), "{error}");
    }
    let reused = edited(name, |fingerprint| {
        fingerprint["key_share_reuse"] = Value::from("x25519");
    });
    let slots = parse(&reused).unwrap();
    let (profile, _) = a_covered_profile();
    assert!(table_of(&slots, profile).unwrap().reuse_classical_key_share);
}

#[test]
fn a_document_with_no_profile_this_build_implements_installs_nothing() {
    let mut document = committed_document();
    for (index, entry) in document["profiles"]
        .as_array_mut()
        .expect("profiles")
        .iter_mut()
        .enumerate()
    {
        entry["name"] = Value::String(format!("opera_{index}"));
    }
    let mut tables = FingerprintTables::new();
    let error = install_fingerprint_tables(&mut tables, document.to_string().as_bytes())
        .expect_err("a document naming nothing we implement installs nothing");
    assert!(error.message().contains("no table for any profile"), "{error:?}");
}

#[test]
fn installing_the_committed_document_is_a_no_op_on_the_bytes() {
    let mut tables = FingerprintTables::new();
    let document = committed_document();
    let covered = committed_profiles(&document);
    let document = document.to_string();
    let installed = install_fingerprint_tables(&mut tables, document.as_bytes()).expect("install");
    assert_eq!(installed, covered.len());
    for profile in RealityHelloProfile::all() {
        let in_effect = tables.table_for(profile);
        assert_eq!(in_effect.extensions, profile.table().extensions);
        assert_eq!(in_effect.cipher_suites, profile.table().cipher_suites);
    }
    install_fingerprint_tables(&mut tables, document.as_bytes()).expect("re-install");
    assert!(using_downloaded_fingerprint_tables(&tables));
}

#[test]
fn a_refused_document_leaves_the_built_in_tables_in_place() {
    let mut tables = FingerprintTables::new();
    assert!(install_fingerprint_tables(&mut tables, b"{").is_err());
    for profile in RealityHelloProfile::all() {
        assert_eq!(tables.table_for(profile).name, profile.table().name);
    }
}

#[test]
fn the_canonical_form_matches_the_pipeline() {
    let value = read_json(br#"{"b":1,"a":[2,{"d":null,"c":"x"}],"e":true}"#).expect("json");
    assert_eq!(
        value.canonical(),
        r#"{"a":[2,{"c":"x","d":null}],"b":1,"e":true}"#
    );
}

#[test]
fn values_are_read_out_of_a_document() {
    let value = read_json(br#"{"n": 7, "t": "a\"b", "l": [1, -2], "f": 1.5}"#).unwrap();
    assert_eq!(value.unsigned_at("n"), Some(7));
    assert_eq!(value.text_at("t"), Some("a\"b"));
    assert_eq!(value.get("l").and_then(Json::as_array).map(Vec::len), Some(2));
    assert_eq!(value.get("f").and_then(Json::as_u64), None);
    assert!(value.get("missing").is_none());
    assert_eq!(value.canonical(), r#"{"f":1.5,"l":[1,-2],"n":7,"t":"a\"b"}"#);
    assert!(read_json(b"{").is_err());
}

fn hello_on_the_wire(tables: &FingerprintTables, profile: RealityHelloProfile) -> Vec<u8> {
    let config = RealityClientConfig {
        public_key: x25519_public_key(&[0x42; 32]).unwrap(),
        short_id: [1, 2, 3, 4, 5, 6, 7, 8],
        server_name: "example.com".to_owned(),
        hello_profile: profile,
    };
    let table = RealityHello::Profile(profile).profile(tables);
    let mut connection = RealityClientConnection::with_profile(&config, table).unwrap();
    connection.write_tls(usize::MAX).unwrap()[5..].to_vec()
}

fn extensions(hello: &[u8]) -> Vec<(u16, Vec<u8>)> {
    let word = |at: usize| u16::from_be_bytes([hello[at], hello[at + 1]]);
    let mut at = 39 + 32;
    at += 2 + word(at) as usize;
    at += 1 + hello[at] as usize;
    assert_eq!(at + 2 + word(at) as usize, hello.len());
    at += 2;
    let mut found = Vec::new();
    while at < hello.len() {
        let length = word(at + 2) as usize;
        found.push((word(at), hello[at + 4..at + 4 + length].to_vec()));
        at += 4 + length;
    }
    found
}

fn renegotiation_info(hello: &[u8]) -> Option<Vec<u8>> {
    extensions(hello)
        .into_iter()
        .find(|(kind, _)| *kind == RENEGOTIATION_INFO)
        .map(|(_, body)| body)
}

fn stable_extension_types(hello: &[u8]) -> Vec<u16> {
    let mut types: Vec<u16> = extensions(hello)
        .into_iter()
        .map(|(kind, _)| kind)
        .filter(|kind| !is_grease(*kind) && *kind != PADDING)
        .collect();
    types.sort_unstable();
    types
}

fn with_marked_renegotiation_info(mut document: Value) -> Value {
    for entry in document["profiles"].as_array_mut().expect("profiles") {
        for slot in entry["fingerprint"]["extension_order"]
            .as_array_mut()
            .expect("extension_order")
        {
            if slot["type"] == "0xff01" {
                slot["body"] = Value::from("0000");
            }
        }
    }
    document
}

#[test]
fn an_installed_table_changes_the_hello() {
    let mut tables = FingerprintTables::new();
    let before: Vec<Vec<u8>> = RealityHelloProfile::all()
        .into_iter()
        .map(|profile| hello_on_the_wire(&tables, profile))
        .collect();
    for hello in &before {
        assert_eq!(renegotiation_info(hello), Some(vec![0x00]));
    }
    let document = rehash(with_marked_renegotiation_info(committed_document()));
    let replaced =
        install_fingerprint_tables(&mut tables, document.to_string().as_bytes()).unwrap();
    assert_eq!(tables.replaced(), Some(replaced));
    assert_eq!(replaced, before.len());
    for (profile, built_in) in RealityHelloProfile::all().into_iter().zip(before) {
        let hello = hello_on_the_wire(&tables, profile);
        assert_eq!(renegotiation_info(&hello), Some(vec![0x00, 0x00]));
        assert_eq!(stable_extension_types(&hello), stable_extension_types(&built_in));
    }
}

#[test]
fn every_way_a_document_goes_bad_leaves_the_built_in_tables() {
    let committed = committed_document();
    let serialised = committed.to_string();
    let rewritten = with_marked_renegotiation_info(committed.clone());
    let mut future_schema = rehash(rewritten.clone());
    future_schema["schema"] = Value::from(2);
    let mut no_key_share = committed.clone();
    for entry in no_key_share["profiles"].as_array_mut().expect("profiles") {
        let slots = entry["fingerprint"]["extension_order"]
            .as_array_mut()
            .expect("extension_order");
        slots.retain(|slot| slot["type"] != "0x0033");
        for (index, slot) in slots.iter_mut().enumerate() {
            slot["order"] = Value::from(index + 1);
        }
    }
    let no_key_share = rehash(no_key_share);

    let cases: Vec<(&str, Vec<u8>)> = vec![
        ("absent", Vec::new()),
        ("empty object", b"{}".to_vec()),
        ("not json", b"<html>404</html>".to_vec()),
        (
            "truncated",
            serialised.as_bytes()[..serialised.len() / 2].to_vec(),
        ),
        ("rewritten after signing", rewritten.to_string().into_bytes()),
        ("unknown schema", future_schema.to_string().into_bytes()),
        ("cannot produce a hello", no_key_share.to_string().into_bytes()),
    ];
    let mut tables = FingerprintTables::new();
    for (label, bytes) in cases {
        assert!(
            install_fingerprint_tables(&mut tables, &bytes).is_err(),
            "{label}: a document that fails a check must not install"
        );
        assert!(
            !using_downloaded_fingerprint_tables(&tables),
            "{label}: nothing may be left installed"
        );
        for profile in RealityHelloProfile::all() {
            let hello = hello_on_the_wire(&tables, profile);
            assert_eq!(
                renegotiation_info(&hello),
                Some(vec![0x00]),
                "{label}/{profile:?}: the built-in table must be writing the bytes"
            );
        }
    }
}

#[test]
fn white_space_in_a_body_does_not_count() {
    let (profile, name) = a_covered_profile();
    let document = edited(name, |fingerprint| {
        fingerprint["extension_order"]
            .as_array_mut()
            .expect("extension_order")
            .iter_mut()
            .find(|entry| entry["type"] == "0xff01")
            .expect("renegotiation_info")["body"] =
            Value::String("0 0\t0\n7 ".to_owned());
    });
    let mut tables = FingerprintTables::new();
    install_fingerprint_tables(&mut tables, document.to_string().as_bytes()).unwrap();
    assert!(tables
        .table_for(profile)
        .extensions
        .contains(&ExtensionSlot::Constant {
            extension_type: 0xff01,
            body: vec![0x00, 0x07],
        }));
    for space in ["\u{85}", "\u{a0}", "\u{1680}", "\u{200a}", "\u{2029}", "\u{3000}"] {
        let text = format!("1{space}2{space}{space}ab");
        assert_eq!(hex_body("p", &text).unwrap(), vec![0x12, 0xab]);
    }
    assert!(hex_body("p", "12\u{200b}").is_err());
    assert!(hex_body("p", "1\u{a0}").is_err());
}

#[test]
fn profiles_that_a_document_does_not_name_keep_their_table() {
    let mut document = with_marked_renegotiation_info(committed_document());
    document["profiles"]
        .as_array_mut()
        .expect("profiles")
        .retain(|entry| entry["name"] == "chrome_131");
    let document = rehash(document).to_string();
    let mut tables = FingerprintTables::new();
    assert_eq!(
        install_fingerprint_tables(&mut tables, document.as_bytes()).unwrap(),
        1
    );
    let built_in = |profile: RealityHelloProfile| profile.table().extensions;
    let in_effect =
        |tables: &FingerprintTables, profile| tables.table_for(profile).extensions.clone();
    assert_eq!(
        in_effect(&tables, RealityHelloProfile::Chrome133),
        built_in(RealityHelloProfile::Chrome133)
    );
    let changed = in_effect(&tables, RealityHelloProfile::Chrome131);
    assert_ne!(changed, built_in(RealityHelloProfile::Chrome131));
    assert_eq!(
        install_fingerprint_tables(&mut tables, document.as_bytes()).unwrap(),
        1
    );
    assert_eq!(in_effect(&tables, RealityHelloProfile::Chrome131), changed);
    assert_eq!(tables.replaced(), Some(1));
}
