use foxwire::error::{ErrorKind, WireError};
use foxwire::naive::connect::{connect_datagram, ConnectAttempts, NaiveConfig};
use foxwire::naive::error::NaiveError;
use foxwire::naive::padding::{
    fill_nonindex_header_value, PaddingFramer, FIRST_PADDINGS, FRAME_HEADER_SIZE, MAX_PADDING_SIZE,
    MAX_PAYLOAD_SIZE, NONINDEX_CODES,
};
use foxwire::naive::request::{
    accept_answer, authority, basic_authorization, build_request, build_request_with, check_target, ConnectRequest,
    negotiate_padding, padding_header_value, PaddingType, TargetParts, MAX_PADDING_HEADER,
    MIN_PADDING_HEADER,
};
use foxwire::naive::session::{H2Pool, ASSUMED_MAX_STREAMS, MAX_STREAMS_PER_CONNECTION};
use foxwire::naive::stream::{PaddedStream, ReadStep, WriteStep};
use foxwire::naive::tunnel::{H2Stream, InboundStep, SendStep};
use foxwire::transport_error::TransportError;

#[test]
fn a_refused_padding_negotiation_is_a_refusal_not_a_soft_warning() {
    let error = TransportError::from(NaiveError::PaddingRefused);
    assert_eq!(error.kind(), ErrorKind::ConnectionRefused);
    assert!(matches!(
        error,
        TransportError::Naive(NaiveError::PaddingRefused)
    ));
}

#[test]
fn a_407_keeps_its_status() {
    let error = TransportError::from(NaiveError::Status(407));
    assert_eq!(error.kind(), ErrorKind::PermissionDenied);
    match error {
        TransportError::Naive(typed) => assert_eq!(typed.status(), Some(407)),
        other => panic!("{other:?}"),
    }
}

#[test]
fn every_naive_failure_has_its_class_and_its_sentence() {
    let cases: [(NaiveError, ErrorKind, &str); 9] = [
        (
            NaiveError::TlsRequired,
            ErrorKind::InvalidInput,
            "NaiveProxy requires TLS with ALPN h2",
        ),
        (
            NaiveError::AlpnMismatch,
            ErrorKind::InvalidInput,
            "NaiveProxy runs over HTTP/2, so ALPN must be exactly [\"h2\"]",
        ),
        (
            NaiveError::Status(502),
            ErrorKind::ConnectionRefused,
            "NaiveProxy server refused CONNECT with status 502",
        ),
        (
            NaiveError::Status(407),
            ErrorKind::PermissionDenied,
            "NaiveProxy server refused CONNECT with status 407",
        ),
        (
            NaiveError::PaddingRefused,
            ErrorKind::ConnectionRefused,
            "NaiveProxy padding was required but the server did not negotiate it (it is a plain HTTP/2 proxy)",
        ),
        (
            NaiveError::UnknownPaddingType("7\t".to_owned()),
            ErrorKind::InvalidData,
            "NaiveProxy server replied with unknown padding type \"7\\t\"",
        ),
        (
            NaiveError::Invalid("x"),
            ErrorKind::InvalidInput,
            "invalid NaiveProxy request: x",
        ),
        (
            NaiveError::Http2("goaway".to_owned()),
            ErrorKind::InvalidData,
            "HTTP/2: goaway",
        ),
        (
            NaiveError::Io(WireError::new(ErrorKind::BrokenPipe, "gone")),
            ErrorKind::BrokenPipe,
            "gone",
        ),
    ];
    for (error, kind, sentence) in cases {
        assert_eq!(error.io_kind(), kind);
        assert_eq!(error.message(), sentence);
        assert_eq!(
            error.is_connection_lost(),
            matches!(error, NaiveError::Http2(_))
        );
        let converted = TransportError::from(error);
        assert_eq!(converted.kind(), kind);
        assert_eq!(converted.message(), sentence);
    }
}

fn header<'a>(request: &'a ConnectRequest, name: &str) -> Option<&'a [u8]> {
    request
        .headers
        .iter()
        .find(|header| header.name == name)
        .map(|header| header.value.as_slice())
}

#[test]
fn a_connect_request_is_authority_form_and_carries_both_padding_headers() {
    let request = build_request(&authority("example.com", 443), None).unwrap();
    assert_eq!(request.method, "CONNECT");
    assert_eq!(request.authority, "example.com:443");
    let uri: http::Uri = request.authority.parse().unwrap();
    assert_eq!(uri.authority().unwrap(), "example.com:443");
    assert!(uri.scheme().is_none());
    assert!(uri.path_and_query().is_none());
    assert_eq!(
        header(&request, "padding-type-request"),
        Some(&b"1, 0"[..])
    );
    let padding = header(&request, "padding").unwrap();
    assert!((MIN_PADDING_HEADER..=MAX_PADDING_HEADER).contains(&padding.len()));
    assert!(padding
        .iter()
        .all(|byte| b"!\"#$&'()*+,;<>?@X".contains(byte)));
    assert_eq!(request.headers.len(), 2);
}

#[test]
fn ipv6_and_ipv4_destinations_are_valid_connect_authorities() {
    let ipv6 = build_request(&authority("2001:db8::1", 443), None).unwrap();
    assert_eq!(ipv6.authority, "[2001:db8::1]:443");
    let ipv4 = build_request(&authority("1.2.3.4", 8443), None).unwrap();
    assert_eq!(ipv4.authority, "1.2.3.4:8443");
}

#[test]
fn credentials_become_a_basic_proxy_authorization_header() {
    let request = build_request(&authority("example.com", 443), Some(("fox", "hole"))).unwrap();
    assert_eq!(
        header(&request, "proxy-authorization"),
        Some(&b"Basic Zm94OmhvbGU="[..])
    );
    assert_eq!(request.headers.len(), 3);
    for (password, value) in [
        ("", "Basic Zjo="),
        ("\u{fb}\u{ff}", "Basic ZjrDu8O/"),
        (">>>", "Basic Zjo+Pj4="),
    ] {
        let request = build_request("example.com:443", Some(("f", password))).unwrap();
        assert_eq!(
            header(&request, "proxy-authorization"),
            Some(value.as_bytes())
        );
    }
}

#[test]
fn a_destination_that_is_not_an_authority_is_refused() {
    assert!(matches!(
        build_request("http://evil:443", None),
        Err(NaiveError::Invalid(_))
    ));
    assert!(matches!(
        build_request(":443", None),
        Err(NaiveError::Invalid(_))
    ));
    assert!(matches!(
        build_request("a b:443", None),
        Err(NaiveError::Invalid(
            "the destination is not a valid HTTP/2 authority"
        ))
    ));
}

#[test]
fn a_target_is_judged_by_its_parts() {
    let parts = |scheme: bool, path: bool, host: Option<&str>| TargetParts {
        scheme,
        path,
        host: host.map(str::to_owned),
    };
    assert!(check_target(Some(&parts(false, false, Some("h")))).is_ok());
    for bad in [
        parts(true, false, Some("h")),
        parts(false, true, Some("h")),
        parts(false, false, Some("")),
        parts(false, false, None),
    ] {
        assert!(matches!(
            check_target(Some(&bad)),
            Err(NaiveError::Invalid(
                "a CONNECT target must be bare authority-form with a host"
            ))
        ));
    }
    assert!(check_target(None).is_err());
}

#[test]
fn a_user_name_with_a_colon_is_refused() {
    assert!(matches!(
        build_request_with("example.com:443", Some(("f:x", "p")), 16, 1),
        Err(NaiveError::Invalid(
            "an HTTP basic userid must not contain a colon"
        ))
    ));
    assert!(matches!(
        basic_authorization("a\nb"),
        Err(NaiveError::Invalid(
            "the proxy credentials are not a legal header"
        ))
    ));
    assert_eq!(basic_authorization("YTpi").unwrap(), b"Basic YTpi".to_vec());
}

#[test]
fn padding_type_reply_is_authoritative() {
    assert_eq!(
        negotiate_padding(Some(b"1"), false).unwrap(),
        PaddingType::Variant1
    );
    assert_eq!(
        negotiate_padding(Some(b"0"), true).unwrap(),
        PaddingType::Unpadded
    );
    assert!(matches!(
        negotiate_padding(Some(b"7"), false),
        Err(NaiveError::UnknownPaddingType(_))
    ));
}

#[test]
fn a_bare_padding_header_means_variant1_for_older_servers() {
    assert_eq!(
        negotiate_padding(None, true).unwrap(),
        PaddingType::Variant1
    );
    assert_eq!(
        negotiate_padding(None, false).unwrap(),
        PaddingType::Unpadded
    );
}

#[test]
fn a_padding_reply_is_trimmed_and_shown_as_it_came() {
    assert_eq!(
        negotiate_padding(Some(b" \t1  "), false).unwrap(),
        PaddingType::Variant1
    );
    match negotiate_padding(Some(b"  variant 2 "), false) {
        Err(NaiveError::UnknownPaddingType(kind)) => assert_eq!(kind, "variant 2"),
        other => panic!("{other:?}"),
    }
    match negotiate_padding(Some(b"\xff1"), false) {
        Err(NaiveError::UnknownPaddingType(kind)) => assert_eq!(kind, "\u{fffd}1"),
        other => panic!("{other:?}"),
    }
}

#[test]
fn a_plain_http2_proxy_is_refused_when_padding_is_required() {
    assert!(matches!(
        accept_answer(200, None, false, true),
        Err(NaiveError::PaddingRefused)
    ));
}

#[test]
fn an_explicit_padding_type_zero_is_also_refused() {
    assert!(matches!(
        accept_answer(200, Some(b"0"), true, true),
        Err(NaiveError::PaddingRefused)
    ));
}

#[test]
fn an_unpadded_profile_may_use_a_plain_http2_proxy() {
    assert_eq!(
        accept_answer(200, None, false, false).unwrap(),
        PaddingType::Unpadded
    );
}

#[test]
fn a_non_2xx_response_never_returns_a_tunnel() {
    for status in [100, 199, 300, 302, 407, 500] {
        match accept_answer(status, Some(b"1"), true, true) {
            Err(error) => assert_eq!(error.status(), Some(status)),
            Ok(_) => panic!("a tunnel for {status}"),
        }
    }
    assert_eq!(
        accept_answer(299, Some(b"1"), true, true).unwrap(),
        PaddingType::Variant1
    );
}

#[test]
fn tls_is_mandatory_and_alpn_is_pinned_to_h2() {
    let plaintext = NaiveConfig {
        tls_enabled: false,
        ..NaiveConfig::default()
    };
    match plaintext.validated() {
        Err(error) => assert_eq!(error.kind(), ErrorKind::InvalidInput),
        Ok(_) => panic!("plaintext NaiveProxy must be refused"),
    }
    let wrong_alpn = NaiveConfig {
        alpn: vec!["http/1.1".to_owned()],
        ..NaiveConfig::default()
    };
    assert!(matches!(
        wrong_alpn.validated(),
        Err(TransportError::Naive(NaiveError::AlpnMismatch))
    ));
    let both = NaiveConfig {
        alpn: vec!["h2".to_owned(), "http/1.1".to_owned()],
        ..NaiveConfig::default()
    };
    assert!(both.validated().is_err());
    match NaiveConfig::default().validated() {
        Ok(config) => assert_eq!(config.alpn, ["h2"]),
        Err(error) => panic!("{error:?}"),
    }
}

#[test]
fn half_of_the_credentials_is_refused() {
    let half = NaiveConfig {
        username: Some("fox".to_owned()),
        ..NaiveConfig::default()
    };
    assert_eq!(half.credentials(), None);
    match half.validated() {
        Err(error) => assert_eq!(
            error.message(),
            "NaiveProxy requires both username and password, or neither"
        ),
        Ok(_) => panic!("half of the credentials"),
    }
    let empty = NaiveConfig {
        username: Some("fox".to_owned()),
        password: Some(String::new()),
        ..NaiveConfig::default()
    };
    match empty.validated() {
        Err(error) => assert_eq!(error.message(), "NaiveProxy password must not be empty"),
        Ok(_) => panic!("an empty password"),
    }
    let never = NaiveConfig {
        handshake_timeout_ms: 0,
        ..NaiveConfig::default()
    };
    match never.validated() {
        Err(error) => assert_eq!(
            error.message(),
            "NaiveProxy handshake_timeout_ms must be greater than zero"
        ),
        Ok(_) => panic!("no time at all"),
    }
}

#[test]
fn udp_fails_closed() {
    let error = connect_datagram();
    assert_eq!(error.kind(), ErrorKind::Unsupported);
}

#[test]
fn padding_is_required_by_default() {
    assert!(NaiveConfig::default().padding);
}

#[test]
fn a_frame_is_three_header_bytes_then_payload_then_zeros() {
    let mut framer = PaddingFramer::new(Some(FIRST_PADDINGS));
    let mut wire = Vec::new();
    assert_eq!(framer.write(b"hi", 4, &mut wire), 2);
    assert_eq!(&wire[..], b"\x00\x02\x04hi\x00\x00\x00\x00");
    assert_eq!(framer.written_frames(), 1);
}

#[test]
fn payload_length_is_big_endian_across_the_two_header_bytes() {
    let mut framer = PaddingFramer::new(Some(FIRST_PADDINGS));
    let mut wire = Vec::new();
    let payload = vec![0x5a_u8; 300];
    assert_eq!(framer.write(&payload, 0, &mut wire), 300);
    assert_eq!(&wire[..3], &[0x01, 0x2c, 0x00]);
    assert_eq!(wire.len(), 3 + 300);
}

#[test]
fn a_pure_padding_frame_carries_no_payload() {
    let mut framer = PaddingFramer::new(Some(FIRST_PADDINGS));
    let mut wire = Vec::new();
    assert_eq!(framer.write(b"", MAX_PADDING_SIZE, &mut wire), 0);
    assert_eq!(&wire[..3], &[0x00, 0x00, 0xff]);
    assert_eq!(wire.len(), 3 + 255);
    assert!(wire[3..].iter().all(|byte| *byte == 0));
}

#[test]
fn one_frame_never_describes_more_than_65535_payload_bytes() {
    let mut framer = PaddingFramer::new(Some(FIRST_PADDINGS));
    let mut wire = Vec::new();
    let payload = vec![7_u8; MAX_PAYLOAD_SIZE + 100];
    assert_eq!(framer.write(&payload, 0, &mut wire), MAX_PAYLOAD_SIZE);
    assert_eq!(&wire[..3], &[0xff, 0xff, 0x00]);
}

#[test]
fn a_frame_split_across_every_possible_boundary_still_decodes() {
    let mut writer = PaddingFramer::new(Some(FIRST_PADDINGS));
    let mut wire = Vec::new();
    writer.write(b"payload-bytes", 9, &mut wire);

    for chunk_size in 1..=wire.len() {
        let mut reader = PaddingFramer::new(Some(FIRST_PADDINGS));
        let mut decoded = Vec::new();
        for chunk in wire.chunks(chunk_size) {
            reader.read(chunk, &mut decoded);
        }
        assert_eq!(&decoded[..], b"payload-bytes", "chunk size {chunk_size}");
        assert_eq!(reader.read_frames(), 1);
    }
}

#[test]
fn padding_bytes_never_reach_the_payload() {
    let mut writer = PaddingFramer::new(Some(FIRST_PADDINGS));
    let mut wire = Vec::new();
    writer.write(b"a", 200, &mut wire);
    writer.write(b"b", 0, &mut wire);

    let mut reader = PaddingFramer::new(Some(FIRST_PADDINGS));
    let mut decoded = Vec::new();
    reader.read(&wire, &mut decoded);
    assert_eq!(&decoded[..], b"ab");
}

#[test]
fn a_zero_padding_frame_is_only_counted_once_the_next_byte_arrives() {
    let mut writer = PaddingFramer::new(Some(FIRST_PADDINGS));
    let mut wire = Vec::new();
    writer.write(b"a", 0, &mut wire);

    let mut reader = PaddingFramer::new(Some(FIRST_PADDINGS));
    let mut decoded = Vec::new();
    reader.read(&wire, &mut decoded);
    assert_eq!(reader.read_frames(), 0);

    let mut more = Vec::new();
    writer.write(b"b", 0, &mut more);
    reader.read(&more, &mut decoded);
    assert_eq!(&decoded[..], b"ab");
    assert_eq!(reader.read_frames(), 1);
}

#[test]
fn framing_stops_after_the_eighth_frame_in_both_directions() {
    let mut writer = PaddingFramer::new(Some(FIRST_PADDINGS));
    let mut wire = Vec::new();
    for _ in 0..FIRST_PADDINGS {
        writer.write(b"x", 0, &mut wire);
    }
    assert_eq!(writer.written_frames(), FIRST_PADDINGS);
    wire.extend_from_slice(b"RAW-TAIL");

    let mut reader = PaddingFramer::new(Some(FIRST_PADDINGS));
    let mut decoded = Vec::new();
    reader.read(&wire, &mut decoded);
    assert_eq!(&decoded[..], b"xxxxxxxxRAW-TAIL");
    assert!(reader.read_is_raw());
}

#[test]
fn a_reader_without_a_frame_limit_keeps_framing_forever() {
    let mut writer = PaddingFramer::new(None);
    let mut wire = Vec::new();
    for _ in 0..(FIRST_PADDINGS + 4) {
        writer.write(b"z", 1, &mut wire);
    }
    let mut reader = PaddingFramer::new(None);
    let mut decoded = Vec::new();
    reader.read(&wire, &mut decoded);
    assert_eq!(decoded.len() as u32, FIRST_PADDINGS + 4);
    assert!(!reader.read_is_raw());
}

#[test]
fn a_padded_stream_is_not_byte_identical_to_a_plain_one() {
    let mut framer = PaddingFramer::new(Some(FIRST_PADDINGS));
    let mut wire = Vec::new();
    framer.write(b"GET / HTTP/1.1\r\n", 17, &mut wire);
    assert_ne!(&wire[..], b"GET / HTTP/1.1\r\n");
    assert_eq!(wire.len(), FRAME_HEADER_SIZE + 16 + 17);
}

#[test]
fn the_padding_header_value_uses_only_incompressible_symbols() {
    let mut value = [0_u8; 24];
    fill_nonindex_header_value(0x0123_4567_89ab_cdef, &mut value);
    // Low nibble first: f, e, d, c, b, a, 9, 8, 7, 6, 5, 4, 3, 2, 1, 0.
    assert_eq!(&value[..16], b"@?><;,+*)('&$#\"!");
    // Everything past the 16 seeded bytes is the 17th symbol.
    assert_eq!(&value[16..], b"XXXXXXXX");
    assert!(value.iter().all(|byte| NONINDEX_CODES.contains(byte)));
}

#[test]
fn a_short_padding_header_value_is_still_fully_seeded() {
    let mut value = [0_u8; 3];
    fill_nonindex_header_value(0x02, &mut value);
    assert_eq!(&value, b"#!!");
    assert_eq!(padding_header_value(3, 0x02), b"#!!".to_vec());
    assert_eq!(&NONINDEX_CODES, b"!\"#$&'()*+,;<>?@X");
}

fn drained(stream: &mut PaddedStream) -> Vec<u8> {
    let bytes = stream.outgoing().to_vec();
    if !bytes.is_empty() {
        stream.sent(bytes.len()).unwrap();
    }
    bytes
}

#[test]
fn the_first_eight_writes_are_padded_and_the_ninth_is_not() {
    let mut stream = PaddedStream::new();
    for _ in 0..8 {
        assert_eq!(stream.write_with(b"ab", 3), WriteStep::Framed(2));
        assert_eq!(drained(&mut stream), b"\x00\x02\x03ab\x00\x00\x00".to_vec());
    }
    assert_eq!(stream.write_with(b"ab", 3), WriteStep::Raw);
    assert!(stream.outgoing().is_empty());
    assert_eq!(stream.write(b""), WriteStep::Framed(0));
}

#[test]
fn inbound_padding_is_stripped_and_never_surfaces_as_payload() {
    let mut stream = PaddedStream::new();
    stream.fill(b"\x00\x05\x02hello\x00\x00\x00\x01\x00!");
    let mut payload = Vec::new();
    while let ReadStep::Data(data) = stream.read(2) {
        assert!(data.len() <= 2);
        payload.extend_from_slice(&data);
    }
    assert_eq!(payload, b"hello!".to_vec());
}

#[test]
fn a_pure_padding_frame_is_not_mistaken_for_end_of_stream() {
    let mut stream = PaddedStream::new();
    stream.fill(b"\x00\x00\x04\x00\x00\x00\x00");
    assert!(matches!(stream.read(10), ReadStep::Fill));
    stream.fill(b"\x00\x02\x00ok");
    match stream.read(10) {
        ReadStep::Data(data) => assert_eq!(data, b"ok".to_vec()),
        other => panic!("{other:?}"),
    }
}

#[test]
fn inbound_framing_stops_after_eight_frames() {
    let mut stream = PaddedStream::new();
    for _ in 0..8 {
        stream.fill(b"\x00\x01\x01x\x00");
    }
    match stream.read(100) {
        ReadStep::Data(data) => assert_eq!(data, b"xxxxxxxx".to_vec()),
        other => panic!("{other:?}"),
    }
    assert!(matches!(stream.read(100), ReadStep::Raw));
}

#[test]
fn a_long_write_is_split_into_frames_that_fit_the_length_field() {
    let mut stream = PaddedStream::new();
    let payload = vec![7_u8; MAX_PAYLOAD_SIZE + 100];
    assert_eq!(
        stream.write_with(&payload, 0),
        WriteStep::Framed(MAX_PAYLOAD_SIZE)
    );
    assert_eq!(drained(&mut stream).len(), 3 + MAX_PAYLOAD_SIZE);
    assert_eq!(
        stream.write_with(&payload[MAX_PAYLOAD_SIZE..], 0),
        WriteStep::Framed(100)
    );
    assert_eq!(&drained(&mut stream)[..3], &[0, 100, 0]);
}

#[test]
fn a_full_round_trip_survives_the_padded_prefix() {
    let mut writer = PaddedStream::new();
    let mut reader = PaddedStream::new();
    let mut expected = Vec::new();
    let mut received = Vec::new();
    for round in 0..20_u8 {
        let message = vec![round; usize::from(round) + 1];
        expected.extend_from_slice(&message);
        let wire = match writer.write(&message) {
            WriteStep::Framed(count) => {
                assert_eq!(count, message.len());
                drained(&mut writer)
            }
            WriteStep::Raw => message,
        };
        for piece in wire.chunks(3) {
            if matches!(reader.read(0), ReadStep::Raw) {
                received.extend_from_slice(piece);
                continue;
            }
            reader.fill(piece);
            while let ReadStep::Data(data) = reader.read(64) {
                received.extend_from_slice(&data);
            }
        }
    }
    assert_eq!(received, expected);
}

#[test]
fn a_transport_that_accepts_nothing_is_at_fault() {
    let mut stream = PaddedStream::new();
    stream.write_with(b"ab", 0);
    let error = stream.sent(0).unwrap_err();
    assert_eq!(error.kind(), ErrorKind::WriteZero);
    assert_eq!(error.message(), "failed to write a NaiveProxy padded frame");
    assert_eq!(stream.outgoing(), b"\x00\x02\x00ab");
    stream.sent(2).unwrap();
    assert_eq!(stream.outgoing(), b"\x00ab");
}

#[test]
fn flows_share_one_connection_instead_of_dialling_each() {
    let mut pool = H2Pool::new();
    assert_eq!(pool.reserve(), None);
    let id = pool.enter().unwrap();
    for _ in 1..ASSUMED_MAX_STREAMS {
        assert_eq!(pool.reserve(), Some(id));
    }
    assert_eq!(pool.connection_count(), 1);
    assert_eq!(pool.reserve(), None);
    pool.release(id);
    assert_eq!(pool.reserve(), Some(id));
}

#[test]
fn a_connection_at_the_peers_stream_limit_is_not_overloaded() {
    let mut pool = H2Pool::new();
    let first = pool.enter().unwrap();
    pool.publish_limit(first, 1);
    assert_eq!(pool.reserve(), None);
    let second = pool.enter().unwrap();
    assert_ne!(first, second);
    assert_eq!(pool.reserve(), Some(second));
    // A peer that allows none is taken to allow one, and no peer more than the cap.
    pool.publish_limit(second, 0);
    assert_eq!(pool.reserve(), None);
    pool.publish_limit(first, usize::MAX);
    let mut streams = 1;
    while pool.reserve() == Some(first) {
        streams += 1;
    }
    assert_eq!(streams, MAX_STREAMS_PER_CONNECTION);
}

#[test]
fn a_goaway_drains_the_connection_and_the_next_flow_reconnects() {
    let mut pool = H2Pool::new();
    let first = pool.enter().unwrap();
    pool.retire(first);
    assert_eq!(pool.reserve(), None);
    assert_eq!(pool.connection_count(), 0);
    // A stream that ends on a connection that has left the pool changes nothing.
    pool.release(first);
    let second = pool.enter().unwrap();
    assert_eq!(pool.reserve(), Some(second));
}

#[test]
fn a_lost_connection_is_retried_and_an_answer_is_not() {
    let mut attempts = ConnectAttempts::new();
    assert!(attempts.next());
    assert!(matches!(
        attempts.failed(NaiveError::Status(407)),
        Some(NaiveError::Status(407))
    ));
    assert!(attempts.failed(NaiveError::Http2("goaway".to_owned())).is_none());
    assert!(attempts.next());
    assert!(attempts.next());
    assert!(!attempts.next());
    match attempts.exhausted() {
        NaiveError::Http2(what) => assert_eq!(what, "goaway"),
        other => panic!("{other:?}"),
    }
    assert!(matches!(
        ConnectAttempts::new().exhausted(),
        NaiveError::Invalid("no NaiveProxy connection could carry the CONNECT")
    ));
}

#[test]
fn a_stream_sends_what_its_window_takes() {
    let mut stream = H2Stream::new();
    assert!(matches!(stream.send_step(5), SendStep::Done));
    stream.write(b"abcdef");
    assert!(stream.is_blocked());
    assert!(matches!(stream.send_step(0), SendStep::Blocked));
    match stream.send_step(4) {
        SendStep::Send(data) => assert_eq!(data, b"abcd".to_vec()),
        other => panic!("{other:?}"),
    }
    match stream.send_step(4) {
        SendStep::Send(data) => assert_eq!(data, b"ef".to_vec()),
        other => panic!("{other:?}"),
    }
    assert!(!stream.is_blocked());
    assert!(matches!(stream.read(1), InboundStep::Fill));
    stream.received(Some(b"xyz"));
    match stream.read(2) {
        InboundStep::Data(data) => assert_eq!(data, b"xy".to_vec()),
        other => panic!("{other:?}"),
    }
    stream.received(None);
    match stream.read(2) {
        InboundStep::Data(data) => assert_eq!(data, b"z".to_vec()),
        other => panic!("{other:?}"),
    }
    assert!(matches!(stream.read(2), InboundStep::End));
}
