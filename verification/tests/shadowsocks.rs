use foxwire::error::ErrorKind;
use foxwire::shadowsocks::outline::{
    check_datagrams, check_prefix, prefixed_salt, CipherCategory, CipherMethod,
    PrefixedProxyStream,
};
use foxwire::shadowsocks::simple_obfs::{
    ObfsDraws, ReadStep, SimpleObfsConfig, SimpleObfsStream, APPLICATION_DATA,
    CHANGE_CIPHER_SPEC_LEN, CIPHER_SUITES, CLIENT_HELLO_OVERHEAD, MAX_HTTP_RESPONSE_HEADER,
    MAX_RECORD, OTHER_EXTENSIONS, READ_CHUNK, SERVER_HELLO_LEN, TLS_FIRST_RESPONSE_LEN,
};

fn method(name: &str) -> CipherMethod {
    CipherMethod::parse(name).unwrap()
}

#[test]
fn known_aead_methods_parse() {
    assert!(CipherMethod::parse("aes-128-gcm").is_ok());
    assert!(CipherMethod::parse("2022-blake3-aes-128-gcm").is_ok());
    let error = CipherMethod::parse("rot13").unwrap_err();
    assert_eq!(error.kind(), ErrorKind::InvalidInput);
    assert_eq!(
        error.message(),
        "unsupported Shadowsocks method: invalid CipherKind"
    );
}

#[test]
fn a_method_is_known_by_one_spelling() {
    let chacha = method("CHACHA20-IETF-POLY1305");
    assert_eq!(chacha.name, "chacha20-ietf-poly1305");
    assert_eq!(chacha.category, CipherCategory::Aead);
    assert_eq!(chacha.salt_len, 32);
    let aes = method("aes-128-gcm");
    assert_eq!(aes.salt_len, 16);
    let newer = method("2022-blake3-aes-256-gcm");
    assert_eq!(newer.category, CipherCategory::Aead2022);
    let plain = method("plain");
    assert_eq!(plain.category, CipherCategory::Plain);
    assert_eq!(plain.salt_len, 0);
}

#[test]
fn the_prefix_replaces_the_head_of_the_salt_and_nothing_else() {
    let method = method("chacha20-ietf-poly1305");
    let prefix = b"\x16\x03\x01\x00\xa8";
    let first = prefixed_salt(&method, prefix).unwrap();
    let second = prefixed_salt(&method, prefix).unwrap();
    assert_eq!(first.len(), method.salt_len);
    assert_eq!(&first[..prefix.len()], prefix);
    assert_eq!(&second[..prefix.len()], prefix);
    assert_ne!(first[prefix.len()..], second[prefix.len()..]);
}

#[test]
fn a_prefix_that_would_eat_more_than_half_the_salt_is_refused() {
    let chacha = method("chacha20-ietf-poly1305");
    assert!(prefixed_salt(&chacha, &[0_u8; 16]).is_ok());
    let error = prefixed_salt(&chacha, &[0_u8; 17]).unwrap_err();
    assert_eq!(error.kind(), ErrorKind::InvalidInput);
    assert_eq!(
        error.message(),
        "an Outline prefix for chacha20-ietf-poly1305 must be 1..=16 bytes, so that at least half of the salt stays random"
    );
    let aes = method("aes-128-gcm");
    let error = prefixed_salt(&aes, &[0_u8; 9]).unwrap_err();
    assert_eq!(error.kind(), ErrorKind::InvalidInput);
    assert!(prefixed_salt(&aes, &[0_u8; 8]).is_ok());
}

#[test]
fn an_empty_prefix_is_refused_rather_than_treated_as_absent() {
    let error = prefixed_salt(&method("chacha20-ietf-poly1305"), b"").unwrap_err();
    assert_eq!(error.kind(), ErrorKind::InvalidInput);
}

#[test]
fn non_aead_methods_are_refused() {
    for name in [
        "2022-blake3-aes-128-gcm",
        "2022-blake3-chacha20-poly1305",
        "none",
    ] {
        let error = prefixed_salt(&method(name), b"POST ").unwrap_err();
        assert_eq!(error.kind(), ErrorKind::Unsupported, "{name}");
        assert!(check_prefix(&method(name), 5).is_err());
    }
}

#[test]
fn the_target_travels_with_the_first_write() {
    let mut stream = PrefixedProxyStream::new(b"header");
    assert_eq!(stream.chunk(b"payload"), b"headerpayload".to_vec());
    // The same chunk until it has been accepted.
    assert_eq!(stream.chunk(b"other"), b"headerpayload".to_vec());
    assert_eq!(stream.accepted(b"other", 13), 5);
    assert_eq!(stream.chunk(b"more"), b"more".to_vec());
    assert_eq!(stream.accepted(b"more", 3), 3);
}

#[test]
fn a_stream_transport_carries_no_datagrams() {
    assert!(check_datagrams(true, true, false).is_ok());
    assert_eq!(
        check_datagrams(false, true, false).unwrap_err().message(),
        "UDP is disabled for this Shadowsocks profile"
    );
    for (raw, obfuscated) in [(false, false), (true, true), (false, true)] {
        let error = check_datagrams(true, raw, obfuscated).unwrap_err();
        assert_eq!(error.kind(), ErrorKind::Unsupported);
        assert_eq!(
            error.message(),
            "Shadowsocks over a stream transport carries TCP only"
        );
    }
}

fn http() -> SimpleObfsConfig {
    SimpleObfsConfig::Http {
        host: "www.bing.com".to_owned(),
        uri: "/".to_owned(),
        method: "GET".to_owned(),
    }
}

fn tls() -> SimpleObfsConfig {
    SimpleObfsConfig::Tls {
        host: "www.bing.com".to_owned(),
    }
}

/// Everything the client writes, with the carrier accepting one byte per call.
fn written(config: &SimpleObfsConfig, port: u16, chunks: &[&[u8]]) -> Vec<u8> {
    let mut stream = SimpleObfsStream::new(config, port);
    let mut collected = Vec::new();
    for chunk in chunks {
        let mut rest = *chunk;
        while !rest.is_empty() {
            let taken = stream.write(rest);
            rest = &rest[taken..];
            while !stream.outgoing().is_empty() {
                collected.push(stream.outgoing()[0]);
                stream.sent(1).unwrap();
            }
        }
    }
    collected
}

#[test]
fn http_request_matches_the_reference_template() {
    let wire = written(&http(), 8388, &[b"salt-and-payload", b" more"]);
    let text = String::from_utf8(wire).unwrap();
    let (header, body) = text.split_once("\r\n\r\n").unwrap();
    let lines: Vec<_> = header.split("\r\n").collect();
    assert_eq!(lines[0], "GET / HTTP/1.1");
    assert_eq!(lines[1], "Host: www.bing.com:8388");
    assert!(lines[2].starts_with("User-Agent: curl/7."));
    assert_eq!(lines[3], "Upgrade: websocket");
    assert_eq!(lines[4], "Connection: Upgrade");
    assert!(lines[5].starts_with("Sec-WebSocket-Key: "));
    assert_eq!(lines[6], "Content-Length: 16");
    assert_eq!(body, "salt-and-payload more");
}

fn draws() -> ObfsDraws {
    ObfsDraws {
        key: [0; 16],
        minor: 50,
        patch: 1,
        random: [0x11; 28],
        session_id: [0x22; 32],
        time: 0x0102_0304,
    }
}

#[test]
fn the_request_is_exact_for_given_draws() {
    let mut stream = SimpleObfsStream::new(&http(), 80);
    assert_eq!(stream.write_with(b"x", &draws()), 1);
    assert_eq!(
        stream.outgoing(),
        &b"GET / HTTP/1.1\r\nHost: www.bing.com\r\nUser-Agent: curl/7.50.1\r\nUpgrade: websocket\r\nConnection: Upgrade\r\nSec-WebSocket-Key: AAAAAAAAAAAAAAAAAAAAAA==\r\nContent-Length: 1\r\n\r\nx"[..]
    );
}

#[test]
fn http_host_header_drops_the_default_port() {
    let wire = written(&http(), 80, &[b"x"]);
    let text = String::from_utf8(wire).unwrap();
    assert!(text.contains("\r\nHost: www.bing.com\r\n"), "{text}");
}

#[test]
fn client_hello_is_byte_exact() {
    let payload = b"first-shadowsocks-write";
    let mut stream = SimpleObfsStream::new(&tls(), 443);
    assert_eq!(stream.write_with(payload, &draws()), payload.len());
    let wire = stream.outgoing().to_vec();
    let host = b"www.bing.com";
    let total = CLIENT_HELLO_OVERHEAD + payload.len() + host.len();
    assert_eq!(wire.len(), total);

    assert_eq!(&wire[..3], &[0x16, 0x03, 0x01]);
    assert_eq!(u16::from_be_bytes([wire[3], wire[4]]) as usize, total - 5);
    assert_eq!(wire[5], 0x01);
    assert_eq!(wire[6], 0x00);
    assert_eq!(u16::from_be_bytes([wire[7], wire[8]]) as usize, total - 9);
    assert_eq!(&wire[9..11], &[0x03, 0x03]);
    assert_eq!(&wire[11..15], &[1, 2, 3, 4]);
    assert_eq!(&wire[15..43], &[0x11; 28]);
    assert_eq!(wire[43], 32);
    assert_eq!(&wire[44..76], &[0x22; 32]);
    assert_eq!(u16::from_be_bytes([wire[76], wire[77]]), 56);
    assert_eq!(&wire[78..134], &CIPHER_SUITES);
    assert_eq!(&wire[134..136], &[0x01, 0x00]);
    assert_eq!(
        u16::from_be_bytes([wire[136], wire[137]]) as usize,
        total - 138
    );
    assert_eq!(&wire[138..140], &[0x00, 0x23]);
    assert_eq!(
        u16::from_be_bytes([wire[140], wire[141]]) as usize,
        payload.len()
    );
    assert_eq!(&wire[142..142 + payload.len()], payload);
    let sni = 142 + payload.len();
    assert_eq!(&wire[sni..sni + 2], &[0x00, 0x00]);
    assert_eq!(
        u16::from_be_bytes([wire[sni + 2], wire[sni + 3]]) as usize,
        host.len() + 5
    );
    assert_eq!(
        u16::from_be_bytes([wire[sni + 4], wire[sni + 5]]) as usize,
        host.len() + 3
    );
    assert_eq!(wire[sni + 6], 0x00);
    assert_eq!(
        u16::from_be_bytes([wire[sni + 7], wire[sni + 8]]) as usize,
        host.len()
    );
    assert_eq!(&wire[sni + 9..sni + 9 + host.len()], host);
    assert_eq!(&wire[sni + 9 + host.len()..], &OTHER_EXTENSIONS);
}

#[test]
fn tls_writes_after_the_hello_are_application_data_records() {
    let wire = written(&tls(), 443, &[b"hello-payload", b"second", b"third"]);
    let tail = &wire[CLIENT_HELLO_OVERHEAD + 13 + 12..];
    assert_eq!(&tail[..3], &APPLICATION_DATA);
    assert_eq!(u16::from_be_bytes([tail[3], tail[4]]), 6);
    assert_eq!(&tail[5..11], b"second");
    assert_eq!(&tail[11..14], &APPLICATION_DATA);
    assert_eq!(u16::from_be_bytes([tail[14], tail[15]]), 5);
    assert_eq!(&tail[16..21], b"third");
}

#[test]
fn tls_splits_a_write_that_does_not_fit_one_record() {
    let payload = vec![7_u8; MAX_RECORD + 100];
    let mut stream = SimpleObfsStream::new(&tls(), 443);
    stream.write(b"hello");
    let hello = stream.outgoing().len();
    assert_eq!(hello, CLIENT_HELLO_OVERHEAD + 5 + 12);
    assert_eq!(stream.write(&payload), MAX_RECORD);
    assert_eq!(stream.write(&payload[MAX_RECORD..]), 100);
    let tail = &stream.outgoing()[hello..];
    assert_eq!(
        u16::from_be_bytes([tail[3], tail[4]]) as usize,
        MAX_RECORD,
        "the first record must stop at the limit the server enforces"
    );
    let second = &tail[5 + MAX_RECORD..];
    assert_eq!(&second[..3], &APPLICATION_DATA);
    assert_eq!(u16::from_be_bytes([second[3], second[4]]) as usize, 100);
}

/// Feed a reader the bytes that a server would send, so many at a time.
fn deobfuscate(
    config: &SimpleObfsConfig,
    wire: &[u8],
    at_once: usize,
) -> Result<Vec<u8>, ErrorKind> {
    let mut stream = SimpleObfsStream::new(config, 443);
    let mut out = Vec::new();
    let mut pieces = wire.chunks(at_once);
    loop {
        match stream.read(7) {
            Err(error) => return Err(error.kind()),
            Ok(ReadStep::Data(data)) => out.extend_from_slice(&data),
            Ok(ReadStep::End) => return Ok(out),
            Ok(ReadStep::Fill) => stream.fill(pieces.next().unwrap_or(&[])),
            Ok(ReadStep::Direct) => match pieces.next() {
                Some(piece) => out.extend_from_slice(piece),
                None => return Ok(out),
            },
        }
    }
}

fn server_first_response(payload: &[u8]) -> Vec<u8> {
    let mut wire = vec![0_u8; TLS_FIRST_RESPONSE_LEN];
    wire[0] = 0x16;
    wire[1] = 0x03;
    wire[2] = 0x01;
    wire[3..5].copy_from_slice(&91_u16.to_be_bytes());
    wire[SERVER_HELLO_LEN] = 0x14;
    let handshake = SERVER_HELLO_LEN + CHANGE_CIPHER_SPEC_LEN;
    wire[handshake] = 0x16;
    wire[handshake + 1] = 0x03;
    wire[handshake + 2] = 0x03;
    wire[handshake + 3..handshake + 5].copy_from_slice(&(payload.len() as u16).to_be_bytes());
    wire.extend_from_slice(payload);
    wire
}

#[test]
fn a_tls_response_split_across_every_byte_still_reassembles() {
    let mut wire = server_first_response(b"first");
    wire.extend_from_slice(&APPLICATION_DATA);
    wire.extend_from_slice(&6_u16.to_be_bytes());
    wire.extend_from_slice(b"second");
    wire.extend_from_slice(&APPLICATION_DATA);
    wire.extend_from_slice(&5_u16.to_be_bytes());
    wire.extend_from_slice(b"third");
    for at_once in 1..wire.len() {
        assert_eq!(
            deobfuscate(&tls(), &wire, at_once).unwrap(),
            b"firstsecondthird".to_vec()
        );
    }
}

#[test]
fn an_http_response_split_across_every_byte_still_reassembles() {
    let wire = b"HTTP/1.1 101 Switching Protocols\r\nUpgrade: websocket\r\n\r\npayload";
    for at_once in 1..wire.len() {
        assert_eq!(
            deobfuscate(&http(), wire, at_once).unwrap(),
            b"payload".to_vec()
        );
    }
}

#[test]
fn tls_response_yields_the_hidden_payload_then_records() {
    let mut wire = server_first_response(b"first");
    wire.extend_from_slice(&APPLICATION_DATA);
    wire.extend_from_slice(&6_u16.to_be_bytes());
    wire.extend_from_slice(b"second");
    assert_eq!(
        deobfuscate(&tls(), &wire, READ_CHUNK).unwrap(),
        b"firstsecond".to_vec()
    );
}

#[test]
fn tls_response_with_a_foreign_record_type_is_refused() {
    let mut wire = server_first_response(b"first");
    wire.extend_from_slice(&[0x16, 0x03, 0x03]);
    wire.extend_from_slice(&1_u16.to_be_bytes());
    wire.push(0);
    assert_eq!(
        deobfuscate(&tls(), &wire, READ_CHUNK),
        Err(ErrorKind::InvalidData)
    );
}

#[test]
fn tls_response_that_is_not_a_server_hello_is_refused() {
    let mut wire = server_first_response(b"first");
    wire[0] = 0x17;
    assert_eq!(
        deobfuscate(&tls(), &wire, READ_CHUNK),
        Err(ErrorKind::InvalidData)
    );
}

#[test]
fn a_record_that_is_too_long_is_refused() {
    let mut wire = server_first_response(b"first");
    wire.extend_from_slice(&APPLICATION_DATA);
    wire.extend_from_slice(&16_385_u16.to_be_bytes());
    assert_eq!(
        deobfuscate(&tls(), &wire, READ_CHUNK),
        Err(ErrorKind::InvalidData)
    );
}

#[test]
fn truncated_tls_response_is_not_reported_as_a_clean_close() {
    let wire = server_first_response(b"first");
    assert_eq!(
        deobfuscate(&tls(), &wire[..TLS_FIRST_RESPONSE_LEN - 1], READ_CHUNK),
        Err(ErrorKind::UnexpectedEof)
    );
    assert_eq!(
        deobfuscate(&tls(), &wire[..TLS_FIRST_RESPONSE_LEN + 2], READ_CHUNK),
        Err(ErrorKind::UnexpectedEof)
    );
    let mut partial = wire.clone();
    partial.push(0x17);
    assert_eq!(
        deobfuscate(&tls(), &partial, READ_CHUNK),
        Err(ErrorKind::UnexpectedEof)
    );
}

#[test]
fn http_response_headers_are_stripped_once() {
    let wire =
        b"HTTP/1.1 101 Switching Protocols\r\nUpgrade: websocket\r\n\r\npayload\r\n\r\nmore";
    assert_eq!(
        deobfuscate(&http(), wire, READ_CHUNK).unwrap(),
        b"payload\r\n\r\nmore".to_vec()
    );
}

#[test]
fn http_response_without_a_header_terminator_is_refused() {
    let wire = vec![b'x'; MAX_HTTP_RESPONSE_HEADER + 1];
    assert_eq!(
        deobfuscate(&http(), &wire, READ_CHUNK),
        Err(ErrorKind::InvalidData)
    );
    let short = vec![b'x'; 10];
    assert_eq!(
        deobfuscate(&http(), &short, READ_CHUNK),
        Err(ErrorKind::UnexpectedEof)
    );
}

#[test]
fn a_carrier_that_accepts_nothing_is_at_fault() {
    let mut stream = SimpleObfsStream::new(&tls(), 443);
    stream.write(b"x");
    let error = stream.sent(0).unwrap_err();
    assert_eq!(error.kind(), ErrorKind::WriteZero);
}

#[test]
fn a_tls_stream_arrives_whole_however_it_is_cut_and_read() {
    let payloads: [&[u8]; 4] = [b"hidden", b"", b"second record", b"x"];
    let mut wire = vec![0_u8; TLS_FIRST_RESPONSE_LEN];
    wire[0] = 0x16;
    wire[102..107].copy_from_slice(&[0x16, 3, 3, 0, 6]);
    wire.extend_from_slice(payloads[0]);
    let mut boundaries = vec![wire.len()];
    for payload in &payloads[1..] {
        wire.extend_from_slice(&APPLICATION_DATA);
        wire.extend_from_slice(&(payload.len() as u16).to_be_bytes());
        wire.extend_from_slice(payload);
        boundaries.push(wire.len());
    }
    let whole = payloads.concat();
    for end in 0..=wire.len() {
        for (chunk, room) in [(1, 1), (3, 100), (50, 2), (200, 7)] {
            let mut stream = SimpleObfsStream::new(&tls(), 443);
            let mut chunks = wire[..end].chunks(chunk);
            let mut received = Vec::new();
            let clean = loop {
                match stream.read(room) {
                    Ok(ReadStep::Data(data)) => received.extend(data),
                    Ok(ReadStep::End) => break true,
                    Ok(_) => stream.fill(chunks.next().unwrap_or(&[])),
                    Err(error) => {
                        assert_eq!(error.kind(), ErrorKind::UnexpectedEof);
                        break false;
                    }
                }
            };
            assert!(whole.starts_with(&received));
            assert_eq!(clean, boundaries.contains(&end), "cut at {end}");
            if end == wire.len() {
                assert_eq!(received, whole);
            }
        }
    }
}
