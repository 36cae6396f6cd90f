use foxwire::destination::{Destination, Host};
use foxwire::error::{ErrorKind, WireError};
use foxwire::socks::codec::{
    decode_udp_datagram, encode_address, encode_auth, encode_greeting, encode_request,
    encode_udp_datagram, read_address, read_auth_status, read_method_selection, read_reply,
    Reading, CMD_CONNECT, CMD_UDP_ASSOCIATE, MAX_UDP_DATAGRAM,
};
use foxwire::socks::error::{SocksError, SocksReply};
use foxwire::socks::handshake::{Action, SocksConfig, SocksHandshake};
use foxwire::socks::udp::{
    relay_address, unspecified_source, DatagramRelay, RelayAction, MAX_UNSOLICITED_CONTROL_BYTES,
};
use foxwire::transport_error::TransportError;

fn v6(groups: [u16; 8]) -> [u8; 16] {
    let mut octets = [0u8; 16];
    for (i, group) in groups.iter().enumerate() {
        octets[2 * i] = (group >> 8) as u8;
        octets[2 * i + 1] = (group & 0xff) as u8;
    }
    octets
}

fn whole(reading: Result<Reading, SocksError>) -> (Destination, usize) {
    match reading {
        Ok(Reading::Whole(destination, length)) => (destination, length),
        other => panic!("expected a whole message, got {other:?}"),
    }
}

#[test]
fn greeting_offers_exactly_the_configured_methods() {
    assert_eq!(encode_greeting(false), vec![0x05, 0x01, 0x00]);
    assert_eq!(encode_greeting(true), vec![0x05, 0x01, 0x02]);
}

#[test]
fn auth_request_matches_rfc1929() {
    let encoded = encode_auth("fox", "hole").unwrap();
    assert_eq!(&encoded[..], b"\x01\x03fox\x04hole");
}

#[test]
fn auth_credentials_are_bounded_to_one_byte_lengths() {
    assert!(encode_auth("", "hole").is_err());
    assert!(encode_auth("fox", "").is_err());
    assert!(encode_auth(&"a".repeat(256), "hole").is_err());
    assert!(encode_auth("fox", &"b".repeat(256)).is_err());
    assert!(encode_auth(&"a".repeat(255), &"b".repeat(255)).is_ok());
}

#[test]
fn connect_request_encodes_all_three_address_types() {
    let ipv4 = encode_request(CMD_CONNECT, &Destination::v4([1, 2, 3, 4], 443)).unwrap();
    assert_eq!(
        &ipv4[..],
        &[0x05, 0x01, 0x00, 0x01, 1, 2, 3, 4, 0x01, 0xbb]
    );

    let ipv6 = encode_request(
        CMD_CONNECT,
        &Destination::v6(v6([0x2001, 0xdb8, 0, 0, 0, 0, 0, 1]), 53),
    )
    .unwrap();
    assert_eq!(
        &ipv6[..],
        &[
            0x05, 0x01, 0x00, 0x04, 0x20, 0x01, 0x0d, 0xb8, 0, 0, 0, 0, 0, 0, 0, 0, 0, 0, 0, 1,
            0x00, 0x35
        ]
    );

    let domain =
        encode_request(CMD_UDP_ASSOCIATE, &Destination::named("example.com", 8080)).unwrap();
    assert_eq!(&domain[..], b"\x05\x03\x00\x03\x0bexample.com\x1f\x90");
}

#[test]
fn domain_names_are_bounded_before_encoding() {
    let long = Destination::named(&"a".repeat(256), 80);
    assert!(matches!(
        encode_request(CMD_CONNECT, &long),
        Err(SocksError::Malformed(_))
    ));
    assert!(encode_request(CMD_CONNECT, &Destination::named("", 80)).is_err());
}

#[test]
fn method_selection_accepts_only_the_offered_method() {
    assert!(read_method_selection([0x05, 0x00], 0x00).is_ok());
    assert!(matches!(
        read_method_selection([0x04, 0x00], 0x00),
        Err(SocksError::UnexpectedVersion(4))
    ));
    assert!(matches!(
        read_method_selection([0x05, 0xff], 0x02),
        Err(SocksError::NoAcceptableAuthMethod)
    ));
    assert!(matches!(
        read_method_selection([0x05, 0x00], 0x02),
        Err(SocksError::UnexpectedAuthMethod(0x00))
    ));
}

#[test]
fn auth_status_is_typed() {
    assert!(read_auth_status([0x01, 0x00]).is_ok());
    assert!(matches!(
        read_auth_status([0x01, 0x01]),
        Err(SocksError::AuthenticationFailed(0x01))
    ));
    assert!(matches!(
        read_auth_status([0x05, 0x00]),
        Err(SocksError::UnexpectedAuthVersion(5))
    ));
}

#[test]
fn reply_returns_the_bound_address_for_every_address_type() {
    let ipv4 = [0x05, 0x00, 0x00, 0x01, 127, 0, 0, 1, 0x27, 0x0f];
    assert_eq!(
        whole(read_reply(&ipv4)),
        (Destination::v4([127, 0, 0, 1], 9999), 10)
    );

    let mut ipv6 = vec![0x05, 0x00, 0x00, 0x04];
    ipv6.extend_from_slice(&[0x20, 0x01, 0x0d, 0xb8, 0, 0, 0, 0, 0, 0, 0, 0, 0, 0, 0, 7]);
    ipv6.extend_from_slice(&[0x01, 0xbb]);
    assert_eq!(
        whole(read_reply(&ipv6)),
        (
            Destination::v6(v6([0x2001, 0xdb8, 0, 0, 0, 0, 0, 7]), 443),
            22
        )
    );

    let domain = b"\x05\x00\x00\x03\x0brelay.local\x04\x38";
    assert_eq!(
        whole(read_reply(domain)),
        (Destination::named("relay.local", 1080), 18)
    );
}

#[test]
fn reply_failures_are_typed_and_carry_the_wire_code() {
    let refused = [0x05, 0x05, 0x00, 0x01, 0, 0, 0, 0, 0, 0];
    match read_reply(&refused) {
        Err(SocksError::Refused(reply)) => {
            assert_eq!(reply, SocksReply::ConnectionRefused);
            assert_eq!(reply.code(), 0x05);
        }
        other => panic!("expected a typed refusal, got {other:?}"),
    }

    let unassigned = [0x05, 0x7a, 0x00, 0x01, 0, 0, 0, 0, 0, 0];
    match read_reply(&unassigned) {
        Err(SocksError::Refused(reply)) => assert_eq!(reply.code(), 0x7a),
        other => panic!("expected a typed refusal, got {other:?}"),
    }

    assert!(matches!(
        read_reply(&[0x04, 0x00, 0x00, 0x01, 0, 0, 0, 0, 0, 0]),
        Err(SocksError::UnexpectedVersion(4))
    ));
    assert!(matches!(
        read_reply(&[0x05, 0x00, 0x00, 0x09]),
        Err(SocksError::UnsupportedAddressType(0x09))
    ));
    // Only five of the ten bytes have come.
    assert!(matches!(
        read_reply(&[0x05, 0x00, 0x00, 0x01, 127]),
        Ok(Reading::Short(5))
    ));
    assert!(matches!(
        read_reply(&[0x05, 0x00, 0x00, 0x03, 0x00, 0, 0]),
        Err(SocksError::Malformed(_))
    ));
}

#[test]
fn a_reply_asks_for_no_byte_behind_its_end() {
    let replies: [&[u8]; 3] = [
        &[0x05, 0x00, 0x00, 0x01, 127, 0, 0, 1, 0x27, 0x0f],
        b"\x05\x00\x00\x03\x0brelay.local\x04\x38",
        &[
            5, 0, 0, 4, 0, 0, 0, 0, 0, 0, 0, 0, 0, 0, 0, 0, 0, 0, 0, 9, 1, 2,
        ],
    ];
    for reply in replies {
        let mut received = Vec::new();
        loop {
            match read_reply(&received) {
                Ok(Reading::Short(more)) => {
                    assert!(more > 0 && received.len() + more <= reply.len());
                    let next = received.len() + more;
                    received = reply[..next].to_vec();
                }
                Ok(Reading::Whole(_, length)) => {
                    assert_eq!(length, reply.len());
                    break;
                }
                Err(error) => panic!("{error:?}"),
            }
        }
    }
}

#[test]
fn a_name_that_is_not_text_is_refused_before_its_port() {
    assert!(matches!(
        read_address(&[3, 2, 0xff, 0xfe]),
        Err(SocksError::Malformed("non-UTF-8 SOCKS5 domain name"))
    ));
    assert!(matches!(read_address(&[3, 2, b'h', b'i']), Ok(Reading::Short(2))));
    assert_eq!(
        whole(read_address(&[3, 2, b'h', b'i', 0, 80, 9, 9])),
        (Destination::named("hi", 80), 6)
    );
}

#[test]
fn destination_address_roundtrips() {
    for destination in [
        Destination::named("example.com", 443),
        Destination::v4([1, 2, 3, 4], 53),
        Destination::v6(v6([0x2001, 0xdb8, 0, 0, 0, 0, 0, 1]), 853),
    ] {
        let mut wire = Vec::new();
        encode_address(&destination, &mut wire).unwrap();
        let length = wire.len();
        wire.extend_from_slice(b"behind");
        assert_eq!(whole(read_address(&wire)), (destination, length));
    }
}

#[test]
fn udp_header_is_prepended_to_the_payload() {
    let mut frame = Vec::new();
    encode_udp_datagram(&Destination::named("example.com", 53), b"query", &mut frame).unwrap();
    assert_eq!(
        &frame[..],
        b"\x00\x00\x00\x03\x0bexample.com\x00\x35query"
    );
}

#[test]
fn udp_datagrams_are_decoded_and_fragments_refused() {
    let decoded = decode_udp_datagram(b"\x00\x00\x00\x01\x08\x08\x08\x08\x00\x35answer").unwrap();
    assert_eq!(decoded.0, Destination::v4([8, 8, 8, 8], 53));
    assert_eq!(decoded.1, b"answer");

    assert!(matches!(
        decode_udp_datagram(b"\x00\x00\x01\x01\x08\x08\x08\x08\x00\x35x"),
        Err(SocksError::Malformed(_))
    ));

    for header in [
        b"\x01\x00\x00\x01\x08\x08\x08\x08\x00\x35answer",
        b"\x00\x01\x00\x01\x08\x08\x08\x08\x00\x35answer",
    ] {
        assert!(
            matches!(decode_udp_datagram(header), Err(SocksError::Malformed(_))),
            "a non-zero RSV must be refused: {header:?}"
        );
    }
    assert!(decode_udp_datagram(b"\x00\x00\x00\x01\x08\x08").is_err());
    assert!(matches!(
        decode_udp_datagram(b"\x00\x00\x00\x09\x00\x00"),
        Err(SocksError::UnsupportedAddressType(0x09))
    ));
}

#[test]
fn every_way_a_datagram_is_malformed_has_its_sentence() {
    let cases: [(&[u8], &str); 11] = [
        (b"\x00\x00\x00", "truncated SOCKS5 UDP header"),
        (b"\x00\x07\x00\x01", "SOCKS5 UDP header RSV field must be zero"),
        (b"\x00\x00\x02\x01", "SOCKS5 UDP fragmentation is not supported"),
        (b"\x00\x00\x00\x01\x01\x02\x03", "truncated SOCKS5 UDP IPv4 address"),
        (b"\x00\x00\x00\x04\x01\x02\x03", "truncated SOCKS5 UDP IPv6 address"),
        (b"\x00\x00\x00\x03", "truncated SOCKS5 UDP domain length"),
        (b"\x00\x00\x00\x03\x00", "empty SOCKS5 UDP domain name"),
        (b"\x00\x00\x00\x03\x03ab", "truncated SOCKS5 UDP domain name"),
        (b"\x00\x00\x00\x03\x01\xff\x00\x01", "non-UTF-8 SOCKS5 UDP domain name"),
        (b"\x00\x00\x00\x03\x01a\x00", "truncated SOCKS5 UDP port"),
        (b"\x00\x00\x00\x01\x01\x02\x03\x04\x00", "truncated SOCKS5 UDP port"),
    ];
    for (frame, sentence) in cases {
        match decode_udp_datagram(frame) {
            Err(SocksError::Malformed(what)) => assert_eq!(what, sentence),
            other => panic!("{frame:?}: {other:?}"),
        }
    }
}

#[test]
fn a_request_that_exceeds_one_datagram_is_refused() {
    let destination = Destination::v4([9, 9, 9, 9], 9);
    let mut frame = Vec::new();
    let payload = vec![0u8; MAX_UDP_DATAGRAM - 10];
    assert!(encode_udp_datagram(&destination, &payload, &mut frame).is_ok());
    assert_eq!(frame.len(), MAX_UDP_DATAGRAM);
    let mut frame = Vec::new();
    let payload = vec![0u8; MAX_UDP_DATAGRAM - 9];
    assert!(encode_udp_datagram(&destination, &payload, &mut frame).is_err());
    // What the header took is left in the buffer.
    assert_eq!(frame, vec![0, 0, 0, 1, 9, 9, 9, 9, 0, 9]);
}

#[test]
fn a_refusal_survives_the_trip_through_io_error() {
    let error = TransportError::from(SocksError::Refused(SocksReply::ConnectionNotAllowed));
    assert_eq!(error.kind(), ErrorKind::PermissionDenied);
    match error {
        TransportError::Socks(SocksError::Refused(reply)) => assert_eq!(reply.code(), 0x02),
        other => panic!("expected a refusal, got {other:?}"),
    }
}

#[test]
fn transport_errors_are_not_re_wrapped() {
    let error = TransportError::from(SocksError::Io(WireError::new(
        ErrorKind::UnexpectedEof,
        "eof",
    )));
    assert_eq!(error.kind(), ErrorKind::UnexpectedEof);
    assert!(matches!(error, TransportError::Io(_)));
    assert_eq!(error.message(), "eof");
}

#[test]
fn unassigned_reply_codes_keep_their_wire_value() {
    assert_eq!(SocksReply::from_code(0x7a).code(), 0x7a);
    assert!(SocksReply::from_code(0x7a).message().contains("0x7a"));
}

#[test]
fn every_reply_code_is_kept() {
    for code in 0..=255u8 {
        assert_eq!(SocksReply::from_code(code).code(), code);
    }
}

#[test]
fn every_failure_has_its_class_and_its_sentence() {
    let cases: [(SocksError, ErrorKind, &str); 9] = [
        (
            SocksError::Refused(SocksReply::TtlExpired),
            ErrorKind::TimedOut,
            "SOCKS5 server refused the request: TTL expired (REP 0x06)",
        ),
        (
            SocksError::UnexpectedVersion(4),
            ErrorKind::InvalidData,
            "SOCKS5 peer used protocol version 4, expected 5",
        ),
        (
            SocksError::UnexpectedAuthMethod(1),
            ErrorKind::PermissionDenied,
            "SOCKS5 server selected authentication method 0x01, which was never offered",
        ),
        (
            SocksError::NoAcceptableAuthMethod,
            ErrorKind::PermissionDenied,
            "SOCKS5 server rejected every offered authentication method",
        ),
        (
            SocksError::UnexpectedAuthVersion(5),
            ErrorKind::InvalidData,
            "SOCKS5 username/password sub-negotiation used version 5, expected 1",
        ),
        (
            SocksError::AuthenticationFailed(0xab),
            ErrorKind::PermissionDenied,
            "SOCKS5 username/password authentication failed with status 0xab",
        ),
        (
            SocksError::UnsupportedAddressType(9),
            ErrorKind::Unsupported,
            "SOCKS5 address type 0x09 is not supported",
        ),
        (
            SocksError::Malformed("x"),
            ErrorKind::InvalidData,
            "malformed SOCKS5 message: x",
        ),
        (
            SocksError::Io(WireError::new(ErrorKind::TimedOut, "late")),
            ErrorKind::TimedOut,
            "late",
        ),
    ];
    for (error, kind, sentence) in cases {
        assert_eq!(error.io_kind(), kind);
        assert_eq!(error.message(), sentence);
    }
    let classes = [
        (0, ErrorKind::Other),
        (1, ErrorKind::ConnectionAborted),
        (2, ErrorKind::PermissionDenied),
        (3, ErrorKind::NotFound),
        (4, ErrorKind::NotFound),
        (5, ErrorKind::ConnectionRefused),
        (6, ErrorKind::TimedOut),
        (7, ErrorKind::Unsupported),
        (8, ErrorKind::Unsupported),
        (9, ErrorKind::ConnectionAborted),
    ];
    for (code, kind) in classes {
        let error = SocksError::Refused(SocksReply::from_code(code));
        assert_eq!(error.io_kind(), kind);
    }
}

fn drive(
    mut handshake: SocksHandshake,
    greeting: Vec<u8>,
    server: &[u8],
) -> (Vec<Vec<u8>>, Result<Destination, SocksError>, usize) {
    let mut sent = vec![greeting];
    let mut at = 0;
    let mut data: Vec<u8> = Vec::new();
    loop {
        match handshake.step(&data) {
            Err(error) => return (sent, Err(error), at),
            Ok(Action::Send(bytes)) => {
                sent.push(bytes);
                data = Vec::new();
            }
            Ok(Action::Read(count)) => {
                if at == server.len() {
                    let error = WireError::new(ErrorKind::UnexpectedEof, "early eof");
                    return (sent, Err(SocksError::Io(error)), at);
                }
                let end = (at + count).min(server.len());
                data = server[at..end].to_vec();
                at = end;
            }
            Ok(Action::Done(bound)) => {
                assert!(handshake.is_done());
                return (sent, Ok(bound), at);
            }
        }
    }
}

#[test]
fn connect_puts_the_hostname_on_the_wire_and_tunnels_bytes() {
    let (handshake, greeting) =
        SocksHandshake::start(None, CMD_CONNECT, &Destination::named("example.com", 443));
    let mut server = vec![0x05, 0x00];
    server.extend_from_slice(&[0x05, 0x00, 0x00, 0x01, 127, 0, 0, 1, 0x04, 0x38]);
    let whole_exchange = server.len();
    server.extend_from_slice(b"HELLO");
    let (sent, bound, read) = drive(handshake, greeting, &server);
    assert_eq!(sent[0], vec![5, 1, 0]);
    assert_eq!(sent[1], b"\x05\x01\x00\x03\x0bexample.com\x01\xbb".to_vec());
    assert_eq!(bound.unwrap(), Destination::v4([127, 0, 0, 1], 1080));
    // The first bytes of the tunnel stay unread.
    assert_eq!(read, whole_exchange);
}

#[test]
fn username_password_authentication_runs_before_the_request() {
    let (handshake, greeting) = SocksHandshake::start(
        Some(("fox", "hole")),
        CMD_CONNECT,
        &Destination::v4([1, 2, 3, 4], 80),
    );
    let server = [5, 2, 1, 0, 0x05, 0x00, 0x00, 0x01, 0, 0, 0, 0, 0, 0];
    let (sent, bound, _) = drive(handshake, greeting, &server);
    assert_eq!(sent[0], vec![5, 1, 2]);
    assert_eq!(sent[1], b"\x01\x03fox\x04hole".to_vec());
    assert_eq!(sent[2], b"\x05\x01\x00\x01\x01\x02\x03\x04\x00\x50".to_vec());
    assert_eq!(bound.unwrap(), Destination::v4([0, 0, 0, 0], 0));
}

#[test]
fn a_refusal_reaches_the_caller_with_its_reply_code() {
    let (handshake, greeting) =
        SocksHandshake::start(None, CMD_CONNECT, &Destination::named("example.com", 443));
    let server = [5, 0, 0x05, 0x02, 0x00, 0x01, 0, 0, 0, 0, 0, 0];
    let error = TransportError::from(drive(handshake, greeting, &server).1.unwrap_err());
    assert_eq!(error.kind(), ErrorKind::PermissionDenied);
    assert!(matches!(
        error,
        TransportError::Socks(SocksError::Refused(SocksReply::ConnectionNotAllowed))
    ));
}

#[test]
fn a_truncated_reply_fails_instead_of_returning_a_half_open_tunnel() {
    let (handshake, greeting) =
        SocksHandshake::start(None, CMD_CONNECT, &Destination::named("example.com", 443));
    let server = [5, 0, 0x05, 0x00, 0x00, 0x01, 127];
    let error = TransportError::from(drive(handshake, greeting, &server).1.unwrap_err());
    assert_eq!(error.kind(), ErrorKind::UnexpectedEof);
}

#[test]
fn a_server_that_answers_with_socks4_is_rejected() {
    let (handshake, greeting) =
        SocksHandshake::start(None, CMD_CONNECT, &Destination::named("example.com", 443));
    let server = [5, 0, 0x04, 0x00, 0x00, 0x01, 0, 0, 0, 0, 0, 0];
    let error = TransportError::from(drive(handshake, greeting, &server).1.unwrap_err());
    assert_eq!(error.kind(), ErrorKind::InvalidData);
}

#[test]
fn a_server_picking_an_unoffered_auth_method_is_rejected() {
    let (handshake, greeting) = SocksHandshake::start(
        Some(("fox", "hole")),
        CMD_CONNECT,
        &Destination::named("example.com", 443),
    );
    let (sent, outcome, _) = drive(handshake, greeting, &[5, 1]);
    assert_eq!(sent.len(), 1, "the credentials must not have been sent");
    let error = TransportError::from(outcome.unwrap_err());
    assert_eq!(error.kind(), ErrorKind::PermissionDenied);
}

fn config(username: Option<&str>, password: Option<&str>, timeout: u64) -> SocksConfig {
    SocksConfig {
        username: username.map(str::to_owned),
        password: password.map(str::to_owned),
        handshake_timeout_ms: timeout,
    }
}

#[test]
fn half_configured_credentials_are_refused_at_construction() {
    let error = config(Some("fox"), None, 1).validate().unwrap_err();
    assert_eq!(error.kind(), ErrorKind::InvalidInput);
    assert_eq!(
        error.message(),
        "SOCKS5 requires both username and password, or neither"
    );
    let error = config(Some("fox"), Some(""), 1).validate().unwrap_err();
    assert_eq!(error.message(), "SOCKS5 password must not be empty");
    let error = config(None, None, 0).validate().unwrap_err();
    assert_eq!(
        error.message(),
        "SOCKS5 handshake_timeout_ms must be greater than zero"
    );
    assert!(config(None, None, 1).validate().is_ok());
    let full = config(Some("fox"), Some("hole"), 1);
    assert!(full.validate().is_ok());
    assert_eq!(full.credentials(), Some(("fox", "hole")));
    assert_eq!(config(None, None, 1).credentials(), None);
}

#[test]
fn a_wildcard_bound_address_falls_back_to_the_proxy_host() {
    let server = Host::V4([203, 0, 113, 5]);
    assert_eq!(
        relay_address(&Destination::v4([0, 0, 0, 0], 5555), &server).unwrap(),
        Destination::v4([203, 0, 113, 5], 5555)
    );
    assert_eq!(
        relay_address(&Destination::v6([0; 16], 5555), &server).unwrap(),
        Destination::v4([203, 0, 113, 5], 5555)
    );
    assert_eq!(
        relay_address(&Destination::v4([198, 51, 100, 4], 7777), &server).unwrap(),
        Destination::v4([198, 51, 100, 4], 7777)
    );
    assert!(relay_address(&Destination::v4([0, 0, 0, 0], 0), &server).is_err());
}

#[test]
fn a_keep_alive_on_the_control_connection_does_not_kill_the_association() {
    let mut relay = DatagramRelay::new(&Destination::named("dns.example", 53));
    assert!(matches!(relay.control_read(Some(8)), RelayAction::Continue));
    match relay.outgoing(Some((&Destination::named("dns.example", 53), b"probe"))) {
        RelayAction::Send(frame) => assert!(frame.ends_with(b"probe")),
        other => panic!("{other:?}"),
    }
    assert!(matches!(relay.control_read(Some(0)), RelayAction::End));
    assert!(matches!(relay.control_read(None), RelayAction::End));
}

#[test]
fn a_control_connection_may_not_talk_for_ever() {
    let mut relay = DatagramRelay::new(&Destination::named("dns.example", 53));
    let mut total = 0;
    while total + 64 < MAX_UNSOLICITED_CONTROL_BYTES {
        assert!(matches!(relay.control_read(Some(64)), RelayAction::Continue));
        total += 64;
    }
    assert!(matches!(relay.control_read(Some(64)), RelayAction::End));
}

#[test]
fn datagrams_without_a_destination_go_where_the_flow_goes() {
    let relay = DatagramRelay::new(&Destination::v4([8, 8, 8, 8], 53));
    match relay.outgoing(Some((&Destination::named("", 0), b"q"))) {
        RelayAction::Send(frame) => assert_eq!(frame, vec![0, 0, 0, 1, 8, 8, 8, 8, 0, 53, b'q']),
        other => panic!("{other:?}"),
    }
    match relay.incoming(Some(b"\x00\x00\x00\x01\x08\x08\x08\x08\x00\x35answer")) {
        RelayAction::Deliver(source, payload) => {
            assert_eq!(source, Destination::v4([8, 8, 8, 8], 53));
            assert_eq!(payload, b"answer".to_vec());
        }
        other => panic!("{other:?}"),
    }
    assert!(matches!(relay.incoming(Some(b"\x00\x00\x01")), RelayAction::Continue));
    assert!(matches!(relay.incoming(None), RelayAction::End));
    assert!(matches!(relay.outgoing(None), RelayAction::End));
    let long = Destination::named(&"a".repeat(256), 1);
    assert!(matches!(relay.outgoing(Some((&long, b"q"))), RelayAction::Continue));
    assert_eq!(unspecified_source(), Destination::v4([0, 0, 0, 0], 0));
}

#[test]
fn a_name_that_spells_an_address_is_that_address() {
    let octets = |groups: [u16; 8]| Host::V6(v6(groups));
    for (text, host) in [
        ("0.0.0.0", Host::V4([0; 4])),
        ("255.1.20.3", Host::V4([255, 1, 20, 3])),
        ("::", octets([0; 8])),
        ("::1", octets([0, 0, 0, 0, 0, 0, 0, 1])),
        ("1::", octets([1, 0, 0, 0, 0, 0, 0, 0])),
        ("2001:DB8::7:0", octets([0x2001, 0xdb8, 0, 0, 0, 0, 7, 0])),
        ("1:2:3:4:5:6:7:8", octets([1, 2, 3, 4, 5, 6, 7, 8])),
        ("1:2:3:4:5:6:7::", octets([1, 2, 3, 4, 5, 6, 7, 0])),
        (
            "::ffff:1.2.3.4",
            octets([0, 0, 0, 0, 0, 0xffff, 0x0102, 0x0304]),
        ),
        ("1:2:3:4:5:6:7.8.9.10", octets([1, 2, 3, 4, 5, 6, 0x0708, 0x090a])),
        ("0:0:0:0:0:0:0.0.0.0", octets([0; 8])),
    ] {
        assert_eq!(Host::of_text(text), host, "{text}");
    }
    for text in [
        "",
        "1.2.3",
        "1.2.3.256",
        "01.2.3.4",
        "1.2.3.4.",
        "1.2.3.4.5",
        ":",
        ":::",
        "1:2:3:4:5:6:7",
        "1:2:3:4:5:6:7:8:9",
        "1:2:3:4:5:6:7:8::",
        "1::2::3",
        "12345::",
        "g::",
        ":1::",
        "1.2.3.4::",
        "1:2:3:4:5:6:7:1.2.3.4",
        "::1%eth0",
        "[::1]",
        "example.com",
    ] {
        assert_eq!(Host::of_text(text), Host::Name(text.to_owned()));
    }
}

#[test]
fn a_wildcard_that_comes_as_a_name_falls_back_to_the_proxy_host_too() {
    let server = Host::V4([203, 0, 113, 5]);
    for wildcard in ["0.0.0.0", "::", "0:0::0", "::0.0.0.0"] {
        let mut reply = vec![0x05, 0x00, 0x00, 0x03, wildcard.len() as u8];
        reply.extend_from_slice(wildcard.as_bytes());
        reply.extend_from_slice(&[0x15, 0xb3]);
        let (bound, length) = whole(read_reply(&reply));
        assert_eq!(length, reply.len());
        let expected = Destination::v4([203, 0, 113, 5], 5555);
        assert_eq!(relay_address(&bound, &server).unwrap(), expected);
        let named = Destination::named(wildcard, 5555);
        assert_eq!(relay_address(&named, &server).unwrap(), expected);
    }
    assert_eq!(
        relay_address(&Destination::named("198.51.100.4", 7777), &server).unwrap(),
        Destination::v4([198, 51, 100, 4], 7777)
    );
    assert_eq!(
        relay_address(&Destination::named("relay.local", 1080), &server).unwrap(),
        Destination::named("relay.local", 1080)
    );
    assert_eq!(
        encode_request(CMD_CONNECT, &Destination::named("1.2.3.4", 443)).unwrap(),
        encode_request(CMD_CONNECT, &Destination::v4([1, 2, 3, 4], 443)).unwrap()
    );
}

#[test]
fn the_text_of_a_name_is_kept_as_it_came() {
    let text = "2001:DB8::1";
    let mut reply = vec![0x05, 0x00, 0x00, 0x03, text.len() as u8];
    reply.extend_from_slice(text.as_bytes());
    reply.extend_from_slice(&[0x15, 0xb3]);
    let (bound, _) = whole(read_reply(&reply));
    assert_eq!(bound, Destination::named(text, 5555));

    let mut datagram = vec![0x00, 0x00, 0x00, 0x03, text.len() as u8];
    datagram.extend_from_slice(text.as_bytes());
    datagram.extend_from_slice(&[0x15, 0xb3, b'x']);
    let (source, payload) = decode_udp_datagram(&datagram).unwrap();
    assert_eq!(source, Destination::named(text, 5555));
    assert_eq!(payload, b"x");

    let mut expected = vec![0x04];
    expected.extend_from_slice(&v6([0x2001, 0xdb8, 0, 0, 0, 0, 0, 1]));
    expected.extend_from_slice(&[0x15, 0xb3]);
    let mut encoded = Vec::new();
    encode_address(&bound, &mut encoded).unwrap();
    assert_eq!(encoded, expected);
}
