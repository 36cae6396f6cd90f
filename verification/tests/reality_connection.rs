use std::collections::HashSet;
use std::sync::Arc;

use aws_lc_rs::agreement;
use foxwire::error::ErrorKind;
use foxwire::reality::cipher_suite::CipherSuite;
use foxwire::reality::client_connection::{RealityClientConfig, RealityClientConnection};
use foxwire::reality::common::{
    HANDSHAKE_TYPE_COMPRESSED_CERTIFICATE, HANDSHAKE_TYPE_ENCRYPTED_EXTENSIONS,
    HANDSHAKE_TYPE_FINISHED, HELLO_SESSION_ID_LEN, HELLO_SESSION_ID_OFFSET, TLS_RECORD_HEADER_SIZE,
};
use foxwire::reality::driver::{
    drain_ciphertext, feed_ciphertext, open_connection, take_plaintext, validate_handshake_timeout,
    validate_server_name, HandshakeRounds, HandshakeStep, RealityHello, MAX_HANDSHAKE_ITERATIONS,
};
use foxwire::reality::group::NamedGroup;
use foxwire::reality::handshake::{
    checked_record_len, hello_retry_request_random, validate_server_hello, ServerFlight,
};
use foxwire::reality::hello_profile::{ExtensionSlot, KeyShareSlot, TLS_1_3};
use foxwire::reality::hello_tables::RealityHelloProfile;
use foxwire::reality::key_schedule::{derive_traffic_keys, transcript_hash};
use foxwire::reality::records::{
    decrypt_record, encrypt_app_data, AeadKey, RecordDecryptor, RecordEncryptor, IV_LEN, KEY_LEN,
};
use foxwire::reality::runtime_tables::FingerprintTables;
use foxwire::reality::testkit::{
    observed_initial_record_version, RealityTestServer, RealityTestSession,
};

fn server_public_key(private: &[u8; 32]) -> [u8; 32] {
    let key = agreement::PrivateKey::from_private_key(&agreement::X25519, private).unwrap();
    let mut public = [0u8; 32];
    public.copy_from_slice(key.compute_public_key().unwrap().as_ref());
    public
}

fn config() -> RealityClientConfig {
    RealityClientConfig {
        public_key: server_public_key(&[0x42u8; 32]),
        short_id: [1, 2, 3, 4, 5, 6, 7, 8],
        server_name: "example.com".to_string(),
        hello_profile: RealityHelloProfile::Chrome133,
    }
}

fn fresh_connection() -> RealityClientConnection {
    RealityClientConnection::new(config()).unwrap()
}

#[test]
fn validates_dns_server_names() {
    assert!(validate_server_name("www.example.com").is_ok());
    assert!(validate_server_name("127.0.0.1").is_err());
    assert!(validate_server_name("bad name").is_err());
    assert!(validate_server_name("-bad.example").is_err());
}

#[test]
fn server_names_are_judged_label_by_label() {
    let long_label = "a".repeat(64);
    let long_name = ["a".repeat(63), "b".repeat(63), "c".repeat(63), "d".repeat(63)].join(".");
    for bad in [
        "",
        ".",
        "a..b",
        "bad-.example",
        "under_score.example",
        "b\u{fc}cher.example",
        "::1",
        long_label.as_str(),
        long_name.as_str(),
    ] {
        let error = validate_server_name(bad).unwrap_err();
        assert_eq!(error.kind(), ErrorKind::InvalidInput, "{bad}");
        assert_eq!(
            error.message(),
            "REALITY server name must be an ASCII DNS name"
        );
    }
    for good in ["a", "example.com.", "xn--bcher-kva.example", "1.2.3.256", "01.2.3.4", "A-1.b"] {
        assert!(validate_server_name(good).is_ok(), "{good}");
    }
}

#[test]
fn a_handshake_takes_some_time_and_at_most_a_minute() {
    assert!(validate_handshake_timeout(0, 1).is_ok());
    assert!(validate_handshake_timeout(60, 0).is_ok());
    for (seconds, nanoseconds) in [(0, 0), (60, 1), (61, 0)] {
        let error = validate_handshake_timeout(seconds, nanoseconds).unwrap_err();
        assert_eq!(error.kind(), ErrorKind::InvalidInput);
        assert_eq!(
            error.message(),
            "REALITY handshake timeout must be in 1ms..=60s"
        );
    }
}

#[test]
fn a_connection_is_refused_for_its_name_before_its_timeout() {
    let tables = FingerprintTables::new();
    let hello = RealityHello::Profile(RealityHelloProfile::Chrome133);
    let mut named = config();
    named.server_name = "10.0.0.1".to_string();
    let Err(error) = open_connection(&named, hello, 0, 0, &tables) else {
        panic!("an address is no server name");
    };
    assert!(error.message().contains("server name"));
    let Err(error) = open_connection(&config(), hello, 0, 0, &tables) else {
        panic!("no time is no timeout");
    };
    assert!(error.message().contains("timeout"));
    assert!(open_connection(&config(), hello, 5, 0, &tables).is_ok());
}

#[test]
fn a_wrong_handshake_state_is_an_error_rather_than_a_panic() {
    let mut connection = fresh_connection();
    let error = connection
        .process_application_data()
        .expect_err("application data before the handshake must not be processed");
    assert_eq!(error.kind(), ErrorKind::InvalidData);

    let error = connection
        .process_encrypted_handshake()
        .expect_err("encrypted handshake messages are not expected in this state");
    assert_eq!(error.kind(), ErrorKind::InvalidData);
}

#[test]
fn client_hello_transcript_bytes_use_encrypted_session_id() {
    let mut conn = RealityClientConnection::new(config()).unwrap();
    let stored_client_hello = match conn.client_hello() {
        Some(client_hello) => client_hello.to_vec(),
        None => panic!("new client must be awaiting ServerHello"),
    };

    let wire = conn.write_tls(usize::MAX).unwrap();

    assert_eq!(&wire[5..], stored_client_hello.as_slice());
    assert_ne!(
        &stored_client_hello
            [HELLO_SESSION_ID_OFFSET..HELLO_SESSION_ID_OFFSET + HELLO_SESSION_ID_LEN],
        &[0u8; 32],
        "transcript ClientHello must retain encrypted wire SessionId"
    );
}

#[test]
fn the_hello_a_connection_writes_is_the_profile_hello() {
    let mut conn = RealityClientConnection::new(config()).unwrap();
    let wire = conn.write_tls(usize::MAX).unwrap();
    let hello = &wire[TLS_RECORD_HEADER_SIZE..];

    assert!(hello.len() > 1400, "hello is {} bytes", hello.len());
    assert_eq!(hello[0], 0x01);

    let mut offset = HELLO_SESSION_ID_OFFSET + HELLO_SESSION_ID_LEN;
    let cipher_suites_len = u16::from_be_bytes([hello[offset], hello[offset + 1]]) as usize;
    assert_eq!(cipher_suites_len / 2, 16, "Chrome offers sixteen");
    offset += 2 + cipher_suites_len;
    offset += 1 + hello[offset] as usize;
    let extensions_len = u16::from_be_bytes([hello[offset], hello[offset + 1]]) as usize;
    offset += 2;
    let end = offset + extensions_len;

    let mut types = Vec::new();
    while offset < end {
        let kind = u16::from_be_bytes([hello[offset], hello[offset + 1]]);
        let length = u16::from_be_bytes([hello[offset + 2], hello[offset + 3]]) as usize;
        types.push(kind);
        offset += 4 + length;
    }
    assert_eq!(offset, end);
    for required in [
        0x0000, // server_name
        0x000a, // supported_groups
        0x0033, // key_share
        0x002b, // supported_versions
        0x0010, // ALPN
        0xfe0d, // ECH GREASE
    ] {
        assert!(types.contains(&required), "missing 0x{required:04x}");
    }
}

/// Build a ServerHello handshake message with the pieces each lock reads.
fn server_hello(
    random: [u8; 32],
    session_id: &[u8; 32],
    selected_version: Option<u16>,
    selected_group: Option<u16>,
) -> Vec<u8> {
    let mut extensions = Vec::new();
    if let Some(version) = selected_version {
        extensions.extend_from_slice(&[0x00, 0x2b, 0x00, 0x02]);
        extensions.extend_from_slice(&version.to_be_bytes());
    }
    if let Some(group) = selected_group {
        let share = vec![0x11_u8; 32];
        extensions.extend_from_slice(&[0x00, 0x33]);
        extensions.extend_from_slice(&((4 + share.len()) as u16).to_be_bytes());
        extensions.extend_from_slice(&group.to_be_bytes());
        extensions.extend_from_slice(&(share.len() as u16).to_be_bytes());
        extensions.extend_from_slice(&share);
    }

    let mut body = Vec::new();
    body.extend_from_slice(&[0x03, 0x03]);
    body.extend_from_slice(&random);
    body.push(32);
    body.extend_from_slice(session_id);
    body.extend_from_slice(&0x1301_u16.to_be_bytes());
    body.push(0x00);
    body.extend_from_slice(&(extensions.len() as u16).to_be_bytes());
    body.extend_from_slice(&extensions);

    let mut message = vec![0x02];
    message.extend_from_slice(&(body.len() as u32).to_be_bytes()[1..]);
    message.extend_from_slice(&body);
    message
}

fn client_hello_with(session_id: &[u8; 32]) -> Vec<u8> {
    let mut hello = vec![0u8; HELLO_SESSION_ID_OFFSET + HELLO_SESSION_ID_LEN];
    hello[HELLO_SESSION_ID_OFFSET - 1] = HELLO_SESSION_ID_LEN as u8;
    hello[HELLO_SESSION_ID_OFFSET..].copy_from_slice(session_id);
    hello
}

#[test]
fn the_three_server_hello_locks_each_refuse_for_their_own_reason() {
    let session_id = [0x5c_u8; 32];
    let client_hello = client_hello_with(&session_id);
    let good_random = [0x01_u8; 32];

    validate_server_hello(
        &server_hello(
            good_random,
            &session_id,
            Some(TLS_1_3),
            Some(NamedGroup::X25519.id()),
        ),
        &client_hello,
    )
    .expect("a TLS 1.3 x25519 ServerHello is exactly what this client asked for");
    validate_server_hello(
        &server_hello(
            good_random,
            &session_id,
            Some(TLS_1_3),
            Some(NamedGroup::X25519MlKem768.id()),
        ),
        &client_hello,
    )
    .expect("and so is the hybrid");

    let message = |hello: Vec<u8>| -> String {
        validate_server_hello(&hello, &client_hello)
            .expect_err("this ServerHello must be refused")
            .message()
            .to_string()
    };

    let hrr = message(server_hello(
        hello_retry_request_random(),
        &session_id,
        Some(TLS_1_3),
        Some(NamedGroup::Secp256r1.id()),
    ));
    assert!(hrr.contains("HelloRetryRequest"), "{hrr}");

    let tls12 = message(server_hello(
        good_random,
        &session_id,
        Some(0x0303),
        Some(NamedGroup::X25519.id()),
    ));
    assert!(tls12.contains("TLS version 0x0303"), "{tls12}");

    let no_version = message(server_hello(
        good_random,
        &session_id,
        None,
        Some(NamedGroup::X25519.id()),
    ));
    assert!(no_version.contains("supported_versions"), "{no_version}");

    let named_group = message(server_hello(
        good_random,
        &session_id,
        Some(TLS_1_3),
        Some(NamedGroup::Secp256r1.id()),
    ));
    assert!(named_group.contains("secp256r1"), "{named_group}");

    let unknown_group = message(server_hello(
        good_random,
        &session_id,
        Some(TLS_1_3),
        Some(0x11eb), // SecP256r1MLKEM768: never offered
    ));
    assert!(unknown_group.contains("never offered"), "{unknown_group}");

    let all = [hrr, tls12, no_version, named_group, unknown_group];
    let unique: HashSet<&String> = all.iter().collect();
    assert_eq!(unique.len(), all.len(), "{all:?}");
}

#[test]
fn a_server_hello_must_echo_the_session_id() {
    let hello = server_hello([0x01; 32], &[0x5c; 32], Some(TLS_1_3), Some(0x001d));
    assert!(validate_server_hello(&hello, &client_hello_with(&[0x5d; 32])).is_err());
    assert!(validate_server_hello(&hello[..60], &client_hello_with(&[0x5c; 32])).is_err());
}

fn in_handshake(server_secret: &[u8]) -> RealityClientConnection {
    let mut connection = fresh_connection();
    connection.await_flight(ServerFlight::new(
        CipherSuite::Aes128GcmSha256,
        vec![0_u8; 32],
        server_secret.to_vec(),
        vec![0_u8; 32],
        Vec::new(),
        [0_u8; 32],
    ));
    connection
}

#[test]
fn a_compressed_certificate_is_refused_by_name() {
    let server_secret = vec![0x33_u8; 32];
    let encrypted_record = |messages: &[u8]| -> Vec<u8> {
        let (key, iv) = derive_traffic_keys(&server_secret, CipherSuite::Aes128GcmSha256);
        let aead = AeadKey::new(CipherSuite::Aes128GcmSha256, &key).unwrap();
        let mut record = Vec::new();
        RecordEncryptor::new(&aead, &iv, 0)
            .encrypt_handshake(messages, &mut record)
            .unwrap();
        record
    };

    let mut messages = vec![HANDSHAKE_TYPE_ENCRYPTED_EXTENSIONS, 0, 0, 2, 0, 0];
    messages.extend_from_slice(&[HANDSHAKE_TYPE_COMPRESSED_CERTIFICATE, 0, 0, 1, 0]);

    let mut connection = in_handshake(&server_secret);
    connection.read_tls(&encrypted_record(&messages)).unwrap();
    let error = connection
        .process_encrypted_handshake()
        .expect_err("RFC 8879 is not implemented");
    assert!(error.message().contains("RFC 8879"), "{error:?}");

    let mut wrong = vec![HANDSHAKE_TYPE_ENCRYPTED_EXTENSIONS, 0, 0, 2, 0, 0];
    wrong.extend_from_slice(&[HANDSHAKE_TYPE_FINISHED, 0, 0, 1, 0]);
    let mut connection = in_handshake(&server_secret);
    connection.read_tls(&encrypted_record(&wrong)).unwrap();
    let error = connection
        .process_encrypted_handshake()
        .expect_err("a Finished cannot stand in for a Certificate");
    assert!(error.message().contains("message order"), "{error:?}");
}

/// A connection and the session of its server, the handshake behind them, with
/// the server's bytes fed in pieces of `piece` bytes.
fn connected(piece: usize) -> (RealityClientConnection, RealityTestSession) {
    let server = RealityTestServer::new([0x42; 32], "example.com");
    assert_eq!(server.public_key().unwrap(), config().public_key);
    let mut connection = fresh_connection();
    let mut rounds = HandshakeRounds::new();
    let wire = rounds.begin(&mut connection).unwrap();
    let header: [u8; 5] = wire[..5].try_into().unwrap();
    assert_eq!(header[1..3], observed_initial_record_version());
    assert_eq!(rounds.sent(&connection).unwrap(), HandshakeStep::Read);
    let (hello, flight, session) = server.answer(header, &wire[5..]).unwrap();
    assert_eq!(session.initial_record_header(), header);
    let mut incoming = hello;
    incoming.extend_from_slice(&flight);
    for part in incoming.chunks(piece) {
        rounds.received(&mut connection, part).unwrap();
    }
    assert!(!connection.is_handshaking());
    (connection, session)
}

fn records(bytes: &[u8]) -> Vec<Vec<u8>> {
    let mut found = Vec::new();
    let mut rest = bytes;
    while !rest.is_empty() {
        let length = checked_record_len(rest).unwrap();
        found.push(rest[..length].to_vec());
        rest = &rest[length..];
    }
    found
}

#[test]
fn plaintext_goes_both_ways_once_connected() {
    let (mut connection, mut session) = connected(usize::MAX);
    connection.write_plaintext(b"a request");
    let out = drain_ciphertext(&mut connection).unwrap();
    let sent = records(&out);
    // The client's Finished comes first, under the handshake keys.
    let last = sent.last().unwrap();
    let plain = session.read(&last[5..], (last.len() - 5) as u16).unwrap();
    assert_eq!(plain, b"a request");
    assert!(drain_ciphertext(&mut connection).unwrap().is_empty());

    let answer = session.write(b"an answer").unwrap();
    assert_ne!(answer[5..], b"an answer"[..]);
    feed_ciphertext(&mut connection, &answer).unwrap();
    connection.process_new_packets().unwrap();
    assert!(!connection.wants_read());
    assert_eq!(take_plaintext(&mut connection), (b"an answer".to_vec(), false));
    assert!(connection.wants_read());
    assert_eq!(
        connection.read_plaintext(10).unwrap_err().kind(),
        ErrorKind::WouldBlock
    );
}

#[test]
fn the_reads_of_a_handshake_may_be_cut_anywhere() {
    for piece in [1, 2, 5, 7, 100, 1000] {
        let (mut connection, mut session) = connected(piece);
        let answer = session.write(&[7; 20_000]).unwrap();
        for part in answer.chunks(piece) {
            feed_ciphertext(&mut connection, part).unwrap();
            connection.process_new_packets().unwrap();
        }
        let (plaintext, closed) = take_plaintext(&mut connection);
        assert_eq!(plaintext, vec![7; 20_000]);
        assert!(!closed);
    }
}

#[test]
fn a_tampered_record_fails_the_connection_for_good() {
    let (mut connection, mut session) = connected(usize::MAX);
    let mut answer = session.write(b"an answer").unwrap();
    let end = answer.len() - 1;
    answer[end] ^= 1;
    feed_ciphertext(&mut connection, &answer).unwrap();
    let first = connection.process_new_packets().unwrap_err();
    assert!(!connection.wants_read());
    let again = connection.process_new_packets().unwrap_err();
    assert_eq!(again.kind(), first.kind());
    assert_eq!(first.message(), "TLS record decryption failed");
    assert_eq!(again.message(), "connection previously failed");
}

#[test]
fn a_close_notification_is_sealed() {
    let (mut connection, mut session) = connected(usize::MAX);
    let _ = drain_ciphertext(&mut connection).unwrap();
    connection.send_close_notify();
    let out = drain_ciphertext(&mut connection).unwrap();
    assert_eq!(out.len(), 5 + 2 + 1 + 16);
    let error = session.read(&out[5..], (out.len() - 5) as u16).unwrap_err();
    assert_eq!(error.message(), "expected application data from the client");
}

#[test]
fn a_handshake_ends_when_the_peer_closes_or_the_rounds_run_out() {
    let mut connection = fresh_connection();
    let mut rounds = HandshakeRounds::new();
    let error = rounds.received(&mut connection, &[]).unwrap_err();
    assert_eq!(error.kind(), ErrorKind::UnexpectedEof);
    for _ in 0..MAX_HANDSHAKE_ITERATIONS {
        rounds.begin(&mut connection).unwrap();
    }
    let error = rounds.begin(&mut connection).unwrap_err();
    assert_eq!(error.message(), "REALITY handshake iteration limit exceeded");
}

#[test]
fn a_server_with_another_key_cannot_finish() {
    let server = RealityTestServer::new([0x43; 32], "example.com");
    let mut connection = fresh_connection();
    let wire = drain_ciphertext(&mut connection).unwrap();
    let header: [u8; 5] = wire[..5].try_into().unwrap();
    if let Ok((hello, flight, _)) = server.answer(header, &wire[5..]) {
        feed_ciphertext(&mut connection, &hello).unwrap();
        feed_ciphertext(&mut connection, &flight).unwrap();
        assert!(connection.process_new_packets().is_err());
    }
    assert!(connection.is_handshaking());
}

#[test]
fn what_is_sealed_is_opened_again() {
    let key = [7_u8; KEY_LEN];
    let iv = [9_u8; IV_LEN];
    let text: Vec<u8> = (0..40_000_u32).map(|index| index as u8).collect();
    let mut plaintext = text.clone();
    let mut sequence = 5_u64;
    let mut wire = Vec::new();
    encrypt_app_data(&key, &iv, &mut sequence, &mut plaintext, &mut wire).unwrap();
    assert!(plaintext.is_empty());
    assert_eq!(sequence, 8);

    let mut opened = Vec::new();
    let mut sequence = 5_u64;
    for record in records(&wire) {
        let (kind, content) = decrypt_record(
            &key,
            &iv,
            &mut sequence,
            &record[5..],
            (record.len() - 5) as u16,
        )
        .unwrap();
        assert_eq!(kind, 23);
        opened.extend_from_slice(&content);
    }
    assert_eq!(opened, text);
    assert_eq!(sequence, 8);
    assert!(decrypt_record(&key, &iv, &mut sequence, &wire[5..40], 35).is_err());
    assert_eq!(sequence, 8);
    assert!(decrypt_record(&key[1..], &iv, &mut sequence, &wire[5..40], 35).is_err());
    assert!(decrypt_record(&key, &iv[1..], &mut sequence, &wire[5..40], 35).is_err());
}

#[test]
fn a_connection_can_be_made_from_a_table() {
    let profile = Arc::new(RealityHelloProfile::Chrome131.table());
    let mut connection = RealityClientConnection::with_profile(&config(), profile).unwrap();
    let hello = drain_ciphertext(&mut connection).unwrap();
    assert!(hello.windows(2).any(|pair| pair == [0x44, 0x69]));
}

const SUITES: [CipherSuite; 3] = [
    CipherSuite::Aes128GcmSha256,
    CipherSuite::Aes256GcmSha384,
    CipherSuite::ChaCha20Poly1305Sha256,
];

#[test]
fn every_suite_seals_and_opens() {
    for suite in SUITES {
        let key = AeadKey::new(suite, &vec![5; suite.key_len()]).unwrap();
        let iv = [6_u8; IV_LEN];
        let mut record = Vec::new();
        let mut writer = RecordEncryptor::new(&key, &iv, 3);
        writer.encrypt_handshake(b"a message", &mut record).unwrap();
        assert_eq!(writer.sequence(), 4);
        assert_eq!(record.len(), 5 + 9 + 1 + 16);
        assert_ne!(&record[5..14], b"a message");
        let length = (record.len() - 5) as u16;
        let mut reader = RecordDecryptor::new(&key, &iv, 3);
        let (kind, content) = reader.decrypt_record(&record[5..], length).unwrap();
        assert_eq!((kind, content.as_slice()), (22, &b"a message"[..]));
        // Under the next number the same record does not open.
        assert!(reader.decrypt_record(&record[5..], length).is_err());
        assert!(AeadKey::new(suite, &[5; 7]).is_err());
    }
}

#[test]
fn traffic_keys_are_expanded_labels() {
    for suite in SUITES {
        let algorithm = match suite {
            CipherSuite::Aes256GcmSha384 => aws_lc_rs::hmac::HMAC_SHA384,
            _ => aws_lc_rs::hmac::HMAC_SHA256,
        };
        let secret = vec![9_u8; suite.hash_len()];
        let expand = |label: &[u8], length: usize| -> Vec<u8> {
            let mut info = (length as u16).to_be_bytes().to_vec();
            info.push(6 + label.len() as u8);
            info.extend_from_slice(b"tls13 ");
            info.extend_from_slice(label);
            info.extend_from_slice(&[0, 1]);
            let key = aws_lc_rs::hmac::Key::new(algorithm, &secret);
            aws_lc_rs::hmac::sign(&key, &info).as_ref()[..length].to_vec()
        };
        let (key, iv) = derive_traffic_keys(&secret, suite);
        assert_eq!(key, expand(b"key", suite.key_len()));
        assert_eq!(iv, expand(b"iv", IV_LEN));
    }
}

#[test]
fn a_transcript_is_hashed_by_its_suite() {
    for suite in SUITES {
        let algorithm = match suite {
            CipherSuite::Aes256GcmSha384 => &aws_lc_rs::digest::SHA384,
            _ => &aws_lc_rs::digest::SHA256,
        };
        let expected = aws_lc_rs::digest::digest(algorithm, b"transcript");
        assert_eq!(transcript_hash(suite, b"transcript"), expected.as_ref());
    }
}

#[test]
fn a_profile_whose_share_cannot_be_made_opens_no_connection() {
    let mut table = RealityHelloProfile::Chrome133.table();
    table.extensions = vec![ExtensionSlot::KeyShare(vec![
        KeyShareSlot::Group(NamedGroup::X25519),
        KeyShareSlot::Group(NamedGroup::Secp384r1),
    ])];
    let error = RealityClientConnection::with_profile(&config(), Arc::new(table))
        .err()
        .expect("no secp384r1 share can be made");
    assert_eq!(error.kind(), ErrorKind::Unsupported);
    assert_eq!(
        error.message(),
        "REALITY hello profile asks for a secp384r1 key share this build cannot execute"
    );
}

#[test]
fn an_address_is_no_server_name() {
    for name in ["1.2.3.4", "1.2.3.4.", "2001:db8::1", "::", "0.0.0.0"] {
        assert!(validate_server_name(name).is_err(), "{name}");
    }
    for name in ["1.2.3.256", "1.2.3.04", "1.2.3", "1.2.3.4.5"] {
        assert!(validate_server_name(name).is_ok(), "{name}");
    }
}
