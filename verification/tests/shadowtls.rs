use foxwire::error::ErrorKind;
use foxwire::shadowtls::config::{
    check_datagrams, muddled_read, muddled_request, muddled_request_for, validate_runtime_config,
    ShadowTlsConfig, TlsVersion,
};
use foxwire::shadowtls::handshake::{
    HandshakeMachine, WriteStep, MAX_HANDSHAKE_BUFFER, MAX_PENDING_WRITE, MUDDLED_RESPONSE_LIMIT,
};
use foxwire::shadowtls::sender::{server_hello_record, ProofSender};
use foxwire::shadowtls::transport::{
    alert_record, switched_stream, DownloadStep, RecordReader, SwitchedRecordReader,
    ALERT_CLOSE_NOTIFY,
};
use foxwire::shadowtls::wire::{
    record_header, sign_client_hello, validate_record, write_record, xor_proof, HmacChain,
    MAX_TLS_RECORD, TLS_ALERT, TLS_APPLICATION_DATA, TLS_HANDSHAKE,
};

fn client_hello() -> Vec<u8> {
    let body_length = 2 + 32 + 1 + 32;
    let mut payload = vec![1, 0, 0, body_length as u8];
    payload.extend_from_slice(&[3, 3]);
    payload.extend_from_slice(&[7_u8; 32]);
    payload.push(32);
    payload.extend_from_slice(&[9_u8; 32]);
    let mut record = record_header(TLS_HANDSHAKE, payload.len())
        .unwrap()
        .to_vec();
    record.extend_from_slice(&payload);
    record
}

#[test]
fn client_hello_signature_is_deterministic_and_localised() {
    let original = client_hello();
    let mut first = original.clone();
    let mut second = original.clone();
    sign_client_hello(&mut first, b"secret").unwrap();
    sign_client_hello(&mut second, b"secret").unwrap();
    assert_eq!(first, second);
    assert_eq!(&first[..72], &original[..72]);
    assert_ne!(&first[72..76], &original[72..76]);
    assert_eq!(&first[72..76], &[0x3e, 0x37, 0x52, 0xa0]);
    // What stood in the signature's place does not matter.
    sign_client_hello(&mut second, b"secret").unwrap();
    assert_eq!(second, first);
}

#[test]
fn a_record_that_is_no_hello_is_not_signed() {
    let hello = client_hello();
    let refusal = |record: &[u8]| {
        let mut copy = record.to_vec();
        let error = sign_client_hello(&mut copy, b"secret").unwrap_err();
        assert_eq!(copy, record);
        error.message().to_owned()
    };
    assert_eq!(refusal(&hello[..4]), "ShadowTLS TLS record is truncated");
    assert_eq!(
        refusal(&hello[..70]),
        "ShadowTLS TLS record length is invalid"
    );
    let mut alert = hello.clone();
    alert[0] = 21;
    assert_eq!(
        refusal(&alert),
        "ShadowTLS first TLS record is not a handshake"
    );
    let mut other = hello.clone();
    other[5] = 2;
    assert_eq!(
        refusal(&other),
        "ShadowTLS first handshake is not ClientHello"
    );
    let mut longer = hello.clone();
    longer[8] = 200;
    assert_eq!(refusal(&longer), "ShadowTLS ClientHello is truncated");
    let mut shorter = hello.clone();
    shorter[43] = 31;
    assert_eq!(
        refusal(&shorter),
        "ShadowTLS v3 requires a 32-byte TLS legacy session id"
    );
}

#[test]
fn chained_tags_reject_reorder_and_replay() {
    let mut sender = HmacChain::new(b"password", b"randomC");
    let first = sender.tag_and_advance(b"one");
    let second = sender.tag_and_advance(b"two");
    assert_eq!(first, [0x10, 0xee, 0xf8, 0xc6]);
    assert_eq!(second, [0x5c, 0xde, 0xde, 0xb1]);
    let mut receiver = HmacChain::new(b"password", b"randomC");
    assert!(!receiver.verify_and_advance(&second, b"two"));
    assert!(receiver.verify_and_advance(&first, b"one"));
    assert!(receiver.verify_and_advance(&second, b"two"));
    assert!(!receiver.verify_and_advance(&first, b"one"));
    assert!(!receiver.verify_and_advance(&[1, 2, 3], b"one"));
}

#[test]
fn the_mask_taken_twice_leaves_the_data() {
    let data: Vec<u8> = (0..100).collect();
    let once = xor_proof(&data, b"password", &[5; 32]);
    assert_ne!(once, data);
    assert_eq!(xor_proof(&once, b"password", &[5; 32]), data);
    // The mask repeats after the length of its digest.
    let zeros = xor_proof(&[0; 64], b"password", &[5; 32]);
    assert_eq!(&zeros[..32], &zeros[32..]);
}

#[test]
fn a_record_header_holds_two_bytes_of_length() {
    assert_eq!(
        record_header(TLS_ALERT, 0x1234).unwrap(),
        [21, 3, 3, 0x12, 0x34]
    );
    assert_eq!(
        record_header(TLS_ALERT, 65536).unwrap_err().kind(),
        ErrorKind::InvalidData
    );
    assert!(validate_record(&[23, 3, 3, 0, 1, 9]).is_ok());
    let mut long = vec![23, 3, 3, 0x48, 0x01];
    long.extend_from_slice(&vec![0; MAX_TLS_RECORD + 1]);
    assert!(validate_record(&long).is_err());
}

#[test]
fn fragmented_server_hello_is_reassembled() {
    let mut machine = HandshakeMachine::new("password");
    let record = server_hello_record([7_u8; 32]);
    machine.collect_server_hello(&record[5..17]).unwrap();
    assert!(machine.server_random().is_none());
    machine.collect_server_hello(&record[17..]).unwrap();
    assert_eq!(machine.server_random(), Some([7_u8; 32]));
}

#[test]
fn valid_server_proof_is_restored_and_bad_chain_fails_closed() {
    let password = b"password";
    let random = [5_u8; 32];
    let mut machine = HandshakeMachine::new("password");
    machine.feed(&server_hello_record(random)).unwrap();
    let _ = machine.take_ready();

    let plaintext_ciphertext = b"outer tls ciphertext".to_vec();
    let processed = xor_proof(&plaintext_ciphertext, password, &random);
    let mut sender = HmacChain::new(password, &random);
    let tag = sender.tag_and_advance(&processed);
    let mut record = vec![TLS_APPLICATION_DATA, 3, 3, 0, (processed.len() + 4) as u8];
    record.extend_from_slice(&tag);
    record.extend_from_slice(&processed);
    machine.process_proof_record(&record).unwrap();
    assert!(machine.authenticated());
    let ready = machine.take_ready();
    assert_eq!(&ready[..5], &[23, 3, 3, 0, 20]);
    assert_eq!(&ready[5..], &plaintext_ciphertext[..]);

    let mut replay = record;
    replay[5] ^= 1;
    assert!(machine.process_proof_record(&replay).is_err());
}

#[test]
fn a_servers_proof_survives_every_way_of_cutting_it() {
    let random = [9_u8; 32];
    let mut sender = ProofSender::new("secret", random);
    let mut wire = server_hello_record(random);
    wire.extend_from_slice(&sender.record(b"one").unwrap());
    wire.extend_from_slice(&sender.record(b"").unwrap());
    wire.extend_from_slice(&sender.record(b"three").unwrap());
    let mut expected = server_hello_record(random);
    for plaintext in [&b"one"[..], b"", b"three"] {
        expected.extend_from_slice(&write_record(TLS_APPLICATION_DATA, plaintext).unwrap());
    }
    for at_once in 1..=wire.len() {
        let mut machine = HandshakeMachine::new("secret");
        for segment in wire.chunks(at_once) {
            machine.feed(segment).unwrap();
        }
        assert!(machine.authenticated() && !machine.hijacked());
        assert_eq!(machine.buffered_wire(), 0);
        assert_eq!(machine.buffered_transcript(), 0);
        assert_eq!(machine.take_ready(), expected);
        assert!(machine.end_of_input().is_ok());
    }
}

#[test]
fn a_plain_tls_server_is_found_out_and_never_trusted() {
    let mut machine = HandshakeMachine::new("secret");
    machine.feed(&server_hello_record([1; 32])).unwrap();
    let record = write_record(TLS_APPLICATION_DATA, b"no proof at all").unwrap();
    machine.feed(&record).unwrap();
    assert!(machine.hijacked() && !machine.authenticated());
    // Even a right proof does not help any more; it is handed on as it is.
    let mut sender = ProofSender::new("secret", [1; 32]);
    let proof = sender.record(b"late").unwrap();
    let _ = machine.take_ready();
    machine.feed(&proof).unwrap();
    assert!(machine.hijacked() && !machine.authenticated());
    assert_eq!(machine.take_ready(), proof);
    let error = machine.into_switch_state().err().unwrap();
    assert_eq!(error.kind(), ErrorKind::PermissionDenied);
}

#[test]
fn hostile_lengths_are_refused() {
    let mut machine = HandshakeMachine::new("secret");
    let error = machine.feed(&[22, 3, 3, 0x48, 0x01]).unwrap_err();
    assert_eq!(
        error.message(),
        "ShadowTLS handshake TLS record is too large"
    );
    let mut machine = HandshakeMachine::new("secret");
    let error = machine
        .feed(&write_record(TLS_HANDSHAKE, &[1, 1, 0, 0]).unwrap())
        .unwrap_err();
    assert_eq!(error.message(), "ShadowTLS handshake message is too large");
    let mut machine = HandshakeMachine::new("secret");
    let error = machine
        .feed(&write_record(TLS_HANDSHAKE, &[2, 0, 0, 2, 3, 3]).unwrap())
        .unwrap_err();
    assert_eq!(error.message(), "ShadowTLS ServerHello is too short");
    let mut machine = HandshakeMachine::new("secret");
    let mut long = vec![1, 0, 0xff, 0xfc];
    long.resize(MAX_TLS_RECORD, 0);
    let record = write_record(TLS_HANDSHAKE, &long).unwrap();
    let mut fed = 0;
    while fed + MAX_TLS_RECORD <= MAX_HANDSHAKE_BUFFER {
        machine.feed(&record).unwrap();
        fed += MAX_TLS_RECORD;
    }
    let error = machine.feed(&record).unwrap_err();
    assert_eq!(
        error.message(),
        "ShadowTLS TLS handshake transcript is too large"
    );
    let mut machine = HandshakeMachine::new("secret");
    machine.feed(&[22]).unwrap();
    assert_eq!(
        machine.end_of_input().unwrap_err().kind(),
        ErrorKind::UnexpectedEof
    );
}

#[test]
fn the_hello_is_signed_on_its_way_out() {
    let hello = client_hello();
    let mut signed = hello.clone();
    sign_client_hello(&mut signed, b"secret").unwrap();
    let mut machine = HandshakeMachine::new("secret");
    assert_eq!(machine.write(&hello[..10]).unwrap(), WriteStep::Taken(10));
    assert!(machine.outgoing().is_empty());
    assert_eq!(
        machine.flush().unwrap_err().message(),
        "ShadowTLS ClientHello was flushed before a complete TLS record"
    );
    let mut rest = hello[10..].to_vec();
    rest.extend_from_slice(b"tail");
    assert_eq!(machine.write(&rest).unwrap(), WriteStep::Taken(rest.len()));
    let mut expected = signed;
    expected.extend_from_slice(b"tail");
    assert_eq!(machine.outgoing(), &expected[..]);
    assert_eq!(machine.sent(0).unwrap_err().kind(), ErrorKind::WriteZero);
    machine.sent(expected.len()).unwrap();
    assert_eq!(machine.write(b"more").unwrap(), WriteStep::Direct);
    assert!(machine.flush().is_ok());
}

#[test]
fn a_hello_that_never_ends_is_refused() {
    let mut machine = HandshakeMachine::new("secret");
    let error = machine.write(&[22, 3, 1, 0x48, 0x01]).unwrap_err();
    assert_eq!(
        error.message(),
        "ShadowTLS ClientHello TLS record is too large"
    );
    assert!(machine.write(b"").is_ok());
    assert_eq!(MAX_PENDING_WRITE, 2 * MAX_TLS_RECORD);
}

#[test]
fn record_reader_handles_fragmentation_and_preserves_following_record() {
    let first = write_record(TLS_APPLICATION_DATA, b"one").unwrap();
    let second = write_record(TLS_ALERT, &ALERT_CLOSE_NOTIFY).unwrap();
    let mut reader = RecordReader::new(Vec::new());
    reader.fill(&first[..2]);
    assert!(reader.read().unwrap().is_none());
    assert_eq!(
        reader.end_of_input().message(),
        "ShadowTLS socket closed before a TLS record header"
    );
    reader.fill(&first[2..7]);
    assert!(reader.read().unwrap().is_none());
    assert_eq!(
        reader.end_of_input().message(),
        "ShadowTLS socket closed inside a TLS record"
    );
    reader.fill(&first[7..]);
    reader.fill(&second);
    assert_eq!(reader.read().unwrap().unwrap(), first);
    assert_eq!(reader.read().unwrap().unwrap(), second);
    assert!(reader.read().unwrap().is_none());
}

#[test]
fn a_segment_completes_as_many_records_as_it_ends() {
    let mut wire = write_record(TLS_APPLICATION_DATA, b"one").unwrap();
    wire.extend_from_slice(&write_record(TLS_APPLICATION_DATA, b"two").unwrap());
    let mut reader = SwitchedRecordReader::new(&wire[..3]);
    let records = reader.feed(&wire[3..12]).unwrap();
    assert_eq!(records, vec![wire[..8].to_vec()]);
    let records = reader.feed(&wire[12..]).unwrap();
    assert_eq!(records, vec![wire[8..].to_vec()]);
    assert_eq!(
        reader.feed(&[23, 3, 1, 0, 0]).unwrap_err().message(),
        "ShadowTLS stage-2 TLS record version is not 1.2"
    );
    let mut reader = SwitchedRecordReader::new(&[]);
    assert_eq!(
        reader.feed(&[23, 3, 3, 0xff, 0xff]).unwrap_err().message(),
        "ShadowTLS stage-2 TLS record is too large"
    );
}

#[test]
fn the_second_stage_carries_tagged_data_both_ways() {
    let random = [3_u8; 32];
    let mut server = ProofSender::new("secret", random);
    let mut machine = HandshakeMachine::new("secret");
    machine.feed(&server_hello_record(random)).unwrap();
    machine.feed(&server.record(b"finished").unwrap()).unwrap();
    let residual = server.record(b"ticket").unwrap();
    machine.feed(&[23]).unwrap();
    let mut stream = switched_stream(machine.into_switch_state().unwrap());
    stream.reader.fill(&[3, 3, 0, 0]);
    let empty = stream.reader.read().unwrap().unwrap();
    assert_eq!(empty, vec![23, 3, 3, 0, 0]);
    assert!(matches!(
        stream.download.take_record(&empty),
        DownloadStep::Refuse(_)
    ));
    assert!(matches!(
        stream.download.take_record(&residual),
        DownloadStep::Skip
    ));
    assert!(matches!(
        stream.download.take_record(&[22, 3, 3, 0, 0]),
        DownloadStep::Skip
    ));

    let mut server_seed = random.to_vec();
    server_seed.push(b'S');
    let mut server_chain = HmacChain::new(b"secret", &server_seed);
    let mut payload = server_chain.tag_and_advance(b"banner").to_vec();
    payload.extend_from_slice(b"banner");
    let record = write_record(TLS_APPLICATION_DATA, &payload).unwrap();
    match stream.download.take_record(&record) {
        DownloadStep::Deliver(data) => assert_eq!(data, b"banner".to_vec()),
        other => panic!("{other:?}"),
    }
    // Neither a replay nor a leftover of the handshake is taken any more.
    match stream.download.take_record(&record) {
        DownloadStep::Refuse(error) => assert_eq!(
            error.message(),
            "ShadowTLS server data failed chained HMAC authentication"
        ),
        other => panic!("{other:?}"),
    }
    match stream.download.take_record(&[22, 3, 3, 0, 0]) {
        DownloadStep::Refuse(error) => assert_eq!(
            error.message(),
            "ShadowTLS received an unexpected TLS record after switching"
        ),
        other => panic!("{other:?}"),
    }
    assert!(matches!(
        stream.download.take_record(&alert_record(false)),
        DownloadStep::Close
    ));

    let record = stream.upload.data_record(b"request").unwrap();
    let mut client_seed = random.to_vec();
    client_seed.push(b'C');
    let mut client_chain = HmacChain::new(b"secret", &client_seed);
    assert!(client_chain.verify_and_advance(&record[5..9], &record[9..]));
    assert_eq!(&record[9..], b"request");
    assert_eq!(alert_record(true), vec![21, 3, 3, 0, 2, 2, 20]);
    assert_eq!(alert_record(false), vec![21, 3, 3, 0, 2, 1, 0]);
}

fn config() -> ShadowTlsConfig {
    ShadowTlsConfig {
        password: "hunter2".to_owned(),
        tls_enabled: true,
        min_version: Some(TlsVersion::Tls13),
        max_version: Some(TlsVersion::Tls13),
        alpn: Vec::new(),
        handshake_timeout_ms: 15_000,
    }
}

#[test]
fn the_configuration_is_strict() {
    assert!(validate_runtime_config(&config()).is_ok());
    let refusals: [(ShadowTlsConfig, &str); 6] = [
        (
            ShadowTlsConfig {
                password: String::new(),
                ..config()
            },
            "ShadowTLS password must not be empty",
        ),
        (
            ShadowTlsConfig {
                tls_enabled: false,
                ..config()
            },
            "ShadowTLS v3 strict mode requires TLS 1.3",
        ),
        (
            ShadowTlsConfig {
                min_version: Some(TlsVersion::Tls12),
                ..config()
            },
            "ShadowTLS v3 strict mode requires TLS 1.3",
        ),
        (
            ShadowTlsConfig {
                alpn: vec!["h2".to_owned()],
                ..config()
            },
            "ShadowTLS muddled fallback requires empty or HTTP/1.1 ALPN",
        ),
        (
            ShadowTlsConfig {
                handshake_timeout_ms: 0,
                ..config()
            },
            "ShadowTLS handshake_timeout_ms must be in 1..=120000",
        ),
        (
            ShadowTlsConfig {
                handshake_timeout_ms: 120_001,
                ..config()
            },
            "ShadowTLS handshake_timeout_ms must be in 1..=120000",
        ),
    ];
    for (config, sentence) in refusals {
        let error = validate_runtime_config(&config).unwrap_err();
        assert_eq!(error.kind(), ErrorKind::InvalidInput);
        assert_eq!(error.message(), sentence);
    }
    let http = ShadowTlsConfig {
        alpn: vec!["http/1.1".to_owned()],
        min_version: None,
        ..config()
    };
    assert!(validate_runtime_config(&http).is_ok());
    assert!(check_datagrams(true).is_ok());
    assert_eq!(
        check_datagrams(false).unwrap_err().kind(),
        ErrorKind::Unsupported
    );
}

#[test]
fn a_muddled_request_looks_like_a_browsers() {
    let path = [0, 1, 2, 3, 4, 5, 6, 7, 8, 9, 0xab, 0xff];
    assert_eq!(
        muddled_request_for(&path, "example.com"),
        "GET /00010203040506070809abff HTTP/1.1\r\nHost: example.com\r\nAccept: */*\r\nConnection: close\r\n\r\n"
    );
    assert_eq!(
        muddled_request("example.com").len(),
        muddled_request_for(&path, "example.com").len()
    );
    assert_eq!(muddled_read(0), Some(2048));
    assert_eq!(muddled_read(MUDDLED_RESPONSE_LIMIT - 10), Some(10));
    assert_eq!(muddled_read(MUDDLED_RESPONSE_LIMIT), None);
}

#[test]
fn a_restored_record_that_does_not_fit_is_refused() {
    let password = b"password";
    let random = [5_u8; 32];
    let mut machine = HandshakeMachine::new("password");
    machine.feed(&server_hello_record(random)).unwrap();
    let _ = machine.take_ready();

    let mut sender = HmacChain::new(password, &random);
    let long = vec![6_u8; 65536];
    let mut record = vec![TLS_APPLICATION_DATA, 3, 3, 0, 0];
    record.extend_from_slice(&sender.tag_and_advance(&long));
    record.extend_from_slice(&long);
    let error = machine.process_proof_record(&record).unwrap_err();
    assert_eq!(error.kind(), ErrorKind::InvalidData);
    assert_eq!(error.message(), "ShadowTLS restored TLS record is too large");
    assert!(!machine.authenticated());
    assert!(machine.take_ready().is_empty());

    // The chain has gone on, so the next record is taken.
    let mut record = vec![TLS_APPLICATION_DATA, 3, 3, 0, 5];
    record.extend_from_slice(&sender.tag_and_advance(b"x"));
    record.extend_from_slice(b"x");
    machine.process_proof_record(&record).unwrap();
    assert!(machine.authenticated());
}

#[test]
fn a_whole_upload_is_delivered_however_it_is_cut() {
    let random = [3_u8; 32];
    let mut server_seed = random.to_vec();
    server_seed.push(b'S');
    let writes: [&[u8]; 4] = [b"one", b"", b"three", &[7; 300]];
    for size in [1, 2, 7, 64, 1000] {
        let mut chain = HmacChain::new(b"secret", &server_seed);
        let mut uploaded = Vec::new();
        for data in writes {
            let mut payload = chain.tag_and_advance(data).to_vec();
            payload.extend_from_slice(data);
            uploaded.extend_from_slice(&write_record(TLS_APPLICATION_DATA, &payload).unwrap());
        }
        let mut machine = HandshakeMachine::new("secret");
        machine.feed(&server_hello_record(random)).unwrap();
        let proof = ProofSender::new("secret", random).record(b"finished").unwrap();
        machine.feed(&proof).unwrap();
        let mut stream = switched_stream(machine.into_switch_state().unwrap());
        let mut reader = SwitchedRecordReader::new(&[]);
        let mut delivered = Vec::new();
        for segment in uploaded.chunks(size) {
            for record in reader.feed(segment).unwrap() {
                match stream.download.take_record(&record) {
                    DownloadStep::Deliver(data) => delivered.push(data),
                    other => panic!("{other:?}"),
                }
            }
        }
        assert_eq!(delivered, writes.map(|data| data.to_vec()));
    }
}
