//! The client's side of the handshake behind the hello: judging the ServerHello
//! and taking in the server's encrypted flight.
use crate::crypto::{constant_time_eq, ed25519_verifies};
use crate::error::{invalid_data, ErrorKind, Fault, WireError};
use crate::octets::{bytes_equal, get_u16, get_u24, push_bytes, read16, read24, to_vec};
use crate::reality::auth::{
    certificate_in, certificate_key, certificate_verdict, extract_certificate_der,
    extract_certificate_verify_signature, extract_ed25519_public_key, signed_content,
    verify_certificate_hmac, verify_certificate_verify_signature, verify_signature_in,
};
use crate::reality::cipher_suite::CipherSuite;
use crate::reality::common::{
    HANDSHAKE_TYPE_CERTIFICATE, HANDSHAKE_TYPE_CERTIFICATE_VERIFY,
    HANDSHAKE_TYPE_COMPRESSED_CERTIFICATE, HANDSHAKE_TYPE_ENCRYPTED_EXTENSIONS,
    HANDSHAKE_TYPE_FINISHED, HELLO_SESSION_ID_LEN, HELLO_SESSION_ID_OFFSET, MAX_TLS_CIPHERTEXT_LEN,
    TLS_RECORD_HEADER_SIZE,
};
use crate::reality::group::NamedGroup;
use crate::reality::hello_profile::TLS_1_3;
use crate::reality::key_schedule::{
    compute_finished_verify_data, derive_traffic_keys, finished_data, hash_of, traffic_iv,
    traffic_key, transcript_hash,
};
use crate::reality::records::{decrypt_handshake_message, opened_handshake, AeadKey, SealState};
use crate::reality::server_hello::{
    extract_server_selected_group, extract_server_selected_version, group_of, selected_group,
    selected_version,
};
use crate::text::{hex_word, push_hex_word, text_of};
use vstd::prelude::*;
use vstd::slice::slice_subrange;
use vstd::string::*;

verus! {

/// The fault for a step that the connection is not ready for.
pub open spec fn state_fault(expected: Seq<char>) -> Fault {
    invalid_data("REALITY connection is not in the state required to process "@ + expected)
}

/// The error for a step that the connection is not ready for.
pub fn handshake_state_error(expected: &str) -> (error: WireError)
    ensures
        error@ == state_fault(expected@),
{
    let mut message = text_of("REALITY connection is not in the state required to process ");
    message.append(expected);
    WireError { kind: ErrorKind::InvalidData, message }
}

/// The length of the record at the front of a buffer, header and all.
pub open spec fn record_length(buffer: Seq<u8>) -> Result<int, Fault> {
    if buffer.len() < 5 {
        Err(invalid_data("TLS record header truncated"@))
    } else if read16(buffer, 3) > MAX_TLS_CIPHERTEXT_LEN {
        Err(invalid_data("REALITY TLS record exceeds the TLS 1.3 ciphertext limit"@))
    } else {
        Ok(TLS_RECORD_HEADER_SIZE + read16(buffer, 3))
    }
}

/// The length of the record at the front of a buffer, header and all.
pub fn checked_record_len(buffer: &[u8]) -> (result: Result<usize, WireError>)
    ensures
        match record_length(buffer@) {
            Ok(length) => result matches Ok(actual) && actual == length,
            Err(fault) => result matches Err(error) && error@ == fault,
        },
{
    if buffer.len() < 5 {
        return Err(WireError::new(ErrorKind::InvalidData, "TLS record header truncated"));
    }
    let length = get_u16(buffer, 3) as usize;
    if length > MAX_TLS_CIPHERTEXT_LEN {
        return Err(
            WireError::new(
                ErrorKind::InvalidData,
                "REALITY TLS record exceeds the TLS 1.3 ciphertext limit",
            ),
        );
    }
    Ok(TLS_RECORD_HEADER_SIZE + length)
}

/// RFC 8446 section 4.1.3: the random that makes a ServerHello a
/// HelloRetryRequest.
pub open spec fn retry_random() -> Seq<u8> {
    seq![
        0xcfu8, 0x21u8, 0xadu8, 0x74u8, 0xe5u8, 0x9au8, 0x61u8, 0x11u8,
        0xbeu8, 0x1du8, 0x8cu8, 0x02u8, 0x1eu8, 0x65u8, 0xb8u8, 0x91u8,
        0xc2u8, 0xa2u8, 0x11u8, 0x16u8, 0x7au8, 0xbbu8, 0x8cu8, 0x5eu8,
        0x07u8, 0x9eu8, 0x09u8, 0xe2u8, 0xc8u8, 0xa8u8, 0x33u8, 0x9cu8,
    ]
}

/// The random that makes a ServerHello a HelloRetryRequest.
pub fn hello_retry_request_random() -> (random: [u8; 32])
    ensures
        random@ == retry_random(),
{
    let random: [u8; 32] = [
        0xcf, 0x21, 0xad, 0x74, 0xe5, 0x9a, 0x61, 0x11, 0xbe, 0x1d, 0x8c, 0x02, 0x1e, 0x65, 0xb8,
        0x91, 0xc2, 0xa2, 0x11, 0x16, 0x7a, 0xbb, 0x8c, 0x5e, 0x07, 0x9e, 0x09, 0xe2, 0xc8, 0xa8,
        0x33, 0x9c,
    ];
    assert(random@ =~= retry_random());
    random
}

/// Whether a share of the group, sent by the client, can be completed when the
/// server selects it.
pub open spec fn completable(group: NamedGroup) -> bool {
    group == NamedGroup::X25519 || group == NamedGroup::X25519MlKem768
}

/// The verdict on the group that a ServerHello selects.
pub open spec fn group_verdict(hello: Seq<u8>) -> Result<(), Fault> {
    match selected_group(hello) {
        Err(fault) => Err(fault),
        Ok(group) => match group_of(group) {
            Some(named) => if completable(named) {
                Ok(())
            } else {
                Err(
                    invalid_data(
                        "REALITY server selected key exchange group "@ + named.spec_name()
                            + ", which this hello names but this build does not execute"@,
                    ),
                )
            },
            None => Err(
                invalid_data(
                    "REALITY server selected key exchange group 0x"@ + hex_word(group as u16)
                        + ", which was never offered"@,
                ),
            ),
        },
    }
}

/// The verdict on the version that a ServerHello selects, and then the rest.
pub open spec fn version_verdict(hello: Seq<u8>) -> Result<(), Fault> {
    match selected_version(hello) {
        Err(fault) => Err(fault),
        Ok(Some(version)) => if version == TLS_1_3 {
            group_verdict(hello)
        } else {
            Err(
                invalid_data(
                    "REALITY server negotiated TLS version 0x"@ + hex_word(version as u16)
                        + "; this client implements TLS 1.3 only"@,
                ),
            )
        },
        Ok(None) => Err(
            invalid_data(
                "REALITY server sent no supported_versions extension, which means it did not negotiate TLS 1.3"@,
            ),
        ),
    }
}

/// The verdict on a ServerHello: its framing, the echo of the session id, and
/// then three locks, each with a reason of its own.
pub open spec fn server_hello_verdict(hello: Seq<u8>, client_hello: Seq<u8>) -> Result<(), Fault> {
    if hello.len() < 71 || client_hello.len() < 71 || hello[0] != 2 || hello[4] != 3 || hello[5]
        != 3 {
        Err(invalid_data("invalid REALITY ServerHello"@))
    } else if read24(hello, 1) != hello.len() - 4 || hello[38] != 32 || hello.subrange(39, 71)
        != client_hello.subrange(39, 71) {
        Err(invalid_data("REALITY ServerHello session is invalid"@))
    } else if hello.subrange(6, 38) == retry_random() {
        Err(
            invalid_data(
                "REALITY server answered with a HelloRetryRequest; this client sends one ClientHello and does not renegotiate the key exchange group"@,
            ),
        )
    } else {
        version_verdict(hello)
    }
}

fn check_group(hello: &[u8]) -> (result: Result<(), WireError>)
    ensures
        match group_verdict(hello@) {
            Ok(_) => result is Ok,
            Err(fault) => result matches Err(error) && error@ == fault,
        },
{
    let group = match extract_server_selected_group(hello) {
        Ok(group) => group,
        Err(error) => {
            return Err(error);
        },
    };
    let named = NamedGroup::from_id(group);
    proof {
        if let Some(expected) = group_of(group as int) {
            assert(expected.spec_id() == group);
        }
    }
    match named {
        Some(NamedGroup::X25519) | Some(NamedGroup::X25519MlKem768) => Ok(()),
        Some(other) => {
            let mut message = text_of("REALITY server selected key exchange group ");
            message.append(other.name());
            message.append(", which this hello names but this build does not execute");
            Err(WireError { kind: ErrorKind::InvalidData, message })
        },
        None => {
            let mut message = text_of("REALITY server selected key exchange group 0x");
            push_hex_word(&mut message, group);
            message.append(", which was never offered");
            Err(WireError { kind: ErrorKind::InvalidData, message })
        },
    }
}

fn check_version(hello: &[u8]) -> (result: Result<(), WireError>)
    ensures
        match version_verdict(hello@) {
            Ok(_) => result is Ok,
            Err(fault) => result matches Err(error) && error@ == fault,
        },
{
    match extract_server_selected_version(hello) {
        Err(error) => Err(error),
        Ok(Some(version)) => {
            if version == TLS_1_3 {
                return check_group(hello);
            }
            let mut message = text_of("REALITY server negotiated TLS version 0x");
            push_hex_word(&mut message, version);
            message.append("; this client implements TLS 1.3 only");
            Err(WireError { kind: ErrorKind::InvalidData, message })
        },
        Ok(None) => Err(
            WireError::new(
                ErrorKind::InvalidData,
                "REALITY server sent no supported_versions extension, which means it did not negotiate TLS 1.3",
            ),
        ),
    }
}

/// Judge a ServerHello message against the ClientHello that it answers.
pub fn validate_server_hello(hello: &[u8], client_hello: &[u8]) -> (result: Result<(), WireError>)
    ensures
        match server_hello_verdict(hello@, client_hello@) {
            Ok(_) => result is Ok,
            Err(fault) => result matches Err(error) && error@ == fault,
        },
{
    let end = HELLO_SESSION_ID_OFFSET + HELLO_SESSION_ID_LEN;
    if hello.len() < end || client_hello.len() < end || hello[0] != 2 || hello[4] != 3 || hello[5]
        != 3 {
        return Err(WireError::new(ErrorKind::InvalidData, "invalid REALITY ServerHello"));
    }
    if get_u24(hello, 1) != hello.len() - 4 || hello[HELLO_SESSION_ID_OFFSET - 1] as usize
        != HELLO_SESSION_ID_LEN || !constant_time_eq(
        slice_subrange(hello, HELLO_SESSION_ID_OFFSET, end),
        slice_subrange(client_hello, HELLO_SESSION_ID_OFFSET, end),
    ) {
        return Err(
            WireError::new(ErrorKind::InvalidData, "REALITY ServerHello session is invalid"),
        );
    }
    let retry = hello_retry_request_random();
    if bytes_equal(slice_subrange(hello, 6, 38), retry.as_slice()) {
        return Err(
            WireError::new(
                ErrorKind::InvalidData,
                "REALITY server answered with a HelloRetryRequest; this client sends one ClientHello and does not renegotiate the key exchange group",
            ),
        );
    }
    check_version(hello)
}

/// The server's encrypted flight, as far as it has arrived.
pub struct ServerFlight {
    suite: CipherSuite,
    client_secret: Vec<u8>,
    server_secret: Vec<u8>,
    master_secret: Vec<u8>,
    transcript: Vec<u8>,
    auth_key: [u8; 32],
    seq: u64,
    plaintext: Vec<u8>,
    offset: usize,
    found: u8,
    public_key: Option<[u8; 32]>,
    verify_offset: Option<usize>,
    finished_offset: Option<usize>,
}

/// What a flight holds.
pub struct FlightShape {
    pub suite: CipherSuite,
    pub client_secret: Seq<u8>,
    pub server_secret: Seq<u8>,
    pub master_secret: Seq<u8>,
    /// The handshake up to the ServerHello.
    pub transcript: Seq<u8>,
    pub auth_key: Seq<u8>,
    /// The number of the next record.
    pub seq: int,
    /// The handshake bytes decrypted so far.
    pub plaintext: Seq<u8>,
    /// The first byte of the next message.
    pub offset: int,
    /// The number of messages found.
    pub found: int,
    /// The key of the verified certificate.
    pub public_key: Option<Seq<u8>>,
    pub verify_offset: Option<int>,
    pub finished_offset: Option<int>,
}

impl View for ServerFlight {
    type V = FlightShape;

    closed spec fn view(&self) -> FlightShape {
        FlightShape {
            suite: self.suite,
            client_secret: self.client_secret@,
            server_secret: self.server_secret@,
            master_secret: self.master_secret@,
            transcript: self.transcript@,
            auth_key: self.auth_key@,
            seq: self.seq as int,
            plaintext: self.plaintext@,
            offset: self.offset as int,
            found: self.found as int,
            public_key: match self.public_key {
                Some(key) => Some(key@),
                None => None,
            },
            verify_offset: match self.verify_offset {
                Some(at) => Some(at as int),
                None => None,
            },
            finished_offset: match self.finished_offset {
                Some(at) => Some(at as int),
                None => None,
            },
        }
    }
}

/// Whether a whole message stands at `at`, before `limit`.
pub open spec fn message_at(plaintext: Seq<u8>, at: int, limit: int) -> bool {
    0 <= at && at + 4 <= limit <= plaintext.len() && at + 4 + read24(plaintext, at + 1) <= limit
}

impl FlightShape {
    /// The offsets of a flight stand at whole messages before the next one.
    pub open spec fn in_bounds(self) -> bool {
        &&& 0 <= self.offset <= self.plaintext.len()
        &&& 0 <= self.found <= 4
        &&& self.verify_offset matches Some(at) ==> message_at(self.plaintext, at, self.offset)
        &&& self.finished_offset matches Some(at) ==> message_at(self.plaintext, at, self.offset)
    }
}

/// The handshake message type that has to come after `found` others.
pub open spec fn expected_type(found: int) -> u8 {
    if found == 0 {
        HANDSHAKE_TYPE_ENCRYPTED_EXTENSIONS
    } else if found == 1 {
        HANDSHAKE_TYPE_CERTIFICATE
    } else if found == 2 {
        HANDSHAKE_TYPE_CERTIFICATE_VERIFY
    } else {
        HANDSHAKE_TYPE_FINISHED
    }
}

/// Where the next message ends, if all of it has arrived and one is due.
pub open spec fn next_message_end(flight: FlightShape) -> Option<int> {
    if flight.found >= 4 || !message_at(
        flight.plaintext,
        flight.offset,
        flight.plaintext.len() as int,
    ) {
        None
    } else {
        Some(flight.offset + 4 + read24(flight.plaintext, flight.offset + 1))
    }
}

/// The key that a Certificate message proves, under the authentication key.
pub open spec fn proven_key(message: Seq<u8>, auth_key: Seq<u8>) -> Result<Seq<u8>, Fault> {
    match certificate_in(message) {
        Err(fault) => Err(fault),
        Ok(der) => match certificate_verdict(der, auth_key) {
            Err(fault) => Err(fault),
            Ok(_) => certificate_key(der),
        },
    }
}

/// The fault for a message of a type that is not due.
pub open spec fn order_fault(actual: u8, expected: u8) -> Fault {
    if actual == HANDSHAKE_TYPE_COMPRESSED_CERTIFICATE && expected == HANDSHAKE_TYPE_CERTIFICATE {
        invalid_data(
            "REALITY server compressed its Certificate; this client offers compress_certificate for fingerprint fidelity but does not implement RFC 8879"@,
        )
    } else {
        invalid_data("REALITY server handshake message order is invalid"@)
    }
}

/// The flight after its next message, which ends at `end`.
pub open spec fn after_message(flight: FlightShape, end: int) -> Result<FlightShape, Fault> {
    let actual = flight.plaintext[flight.offset];
    let expected = expected_type(flight.found);
    let passed = FlightShape { offset: end, found: flight.found + 1, ..flight };
    if actual != expected {
        Err(order_fault(actual, expected))
    } else if actual == HANDSHAKE_TYPE_CERTIFICATE {
        match proven_key(flight.plaintext.subrange(flight.offset, end), flight.auth_key) {
            Err(fault) => Err(fault),
            Ok(key) => Ok(FlightShape { public_key: Some(key), ..passed }),
        }
    } else if actual == HANDSHAKE_TYPE_CERTIFICATE_VERIFY {
        Ok(FlightShape { verify_offset: Some(flight.offset), ..passed })
    } else if actual == HANDSHAKE_TYPE_FINISHED {
        Ok(FlightShape { finished_offset: Some(flight.offset), ..passed })
    } else {
        Ok(passed)
    }
}

/// The flight after every whole message that has arrived.
pub open spec fn after_messages(flight: FlightShape) -> Result<FlightShape, Fault>
    decreases flight.plaintext.len() - flight.offset,
{
    match next_message_end(flight) {
        None => Ok(flight),
        Some(end) => match after_message(flight, end) {
            Err(fault) => Err(fault),
            Ok(next) => if next.offset <= flight.offset || next.plaintext != flight.plaintext {
                Ok(next)
            } else {
                after_messages(next)
            },
        },
    }
}

/// The flight after one more record's content.
pub open spec fn after_content(flight: FlightShape, content: Seq<u8>) -> Result<
    FlightShape,
    Fault,
> {
    after_messages(
        FlightShape { plaintext: flight.plaintext + content, seq: flight.seq + 1, ..flight },
    )
}

/// The encryption that the server's flight comes under.
pub open spec fn flight_seal(flight: FlightShape) -> SealState {
    SealState {
        suite: flight.suite,
        key: traffic_key(flight.suite, flight.server_secret),
        iv: traffic_iv(flight.suite, flight.server_secret),
        seq: flight.seq,
    }
}

/// The flight after one more encrypted record.
pub open spec fn after_record(flight: FlightShape, ciphertext: Seq<u8>) -> Result<
    FlightShape,
    Fault,
> {
    match opened_handshake(flight_seal(flight), ciphertext, ciphertext.len() as u16) {
        Err(fault) => Err(fault),
        Ok(content) => after_content(flight, content),
    }
}

/// The hash of the handshake up to `at` in the flight.
pub open spec fn flight_hash(flight: FlightShape, at: int) -> Seq<u8> {
    hash_of(flight.suite, flight.transcript + flight.plaintext.subrange(0, at))
}

/// The verdict on the server's Finished message.
pub open spec fn finished_verdict(flight: FlightShape) -> Result<(), Fault> {
    match flight.finished_offset {
        None => Err(invalid_data("REALITY server Finished message is missing"@)),
        Some(at) => if flight.offset != flight.plaintext.len() {
            Err(invalid_data("unexpected bytes after REALITY server Finished"@))
        } else if read24(flight.plaintext, at + 1) != flight.suite.spec_hash_len() {
            Err(invalid_data("REALITY server Finished has an invalid length"@))
        } else if flight.plaintext.subrange(
            at + 4,
            at + 4 + read24(flight.plaintext, at + 1),
        ) != finished_data(flight.suite, flight.server_secret, flight_hash(flight, at)) {
            Err((ErrorKind::PermissionDenied, "REALITY server Finished verification failed"@))
        } else {
            Ok(())
        },
    }
}

/// The verdict on a flight with all its messages: the certificate's key signed
/// the transcript, and the Finished message covers it.
pub open spec fn flight_verdict(flight: FlightShape) -> Result<(), Fault> {
    match flight.public_key {
        None => Err(
            (
                ErrorKind::PermissionDenied,
                "REALITY handshake failed: Certificate message not received or not verified"@,
            ),
        ),
        Some(key) => match flight.verify_offset {
            None => Err(
                (
                    ErrorKind::PermissionDenied,
                    "REALITY handshake failed: CertificateVerify not verified"@,
                ),
            ),
            Some(at) => match verify_signature_in(
                flight.plaintext.subrange(at, at + 4 + read24(flight.plaintext, at + 1)),
            ) {
                Err(fault) => Err(fault),
                Ok(signature) => if !ed25519_verifies(
                    key,
                    signed_content(flight_hash(flight, at)),
                    signature,
                ) {
                    Err(
                        (
                            ErrorKind::PermissionDenied,
                            "REALITY CertificateVerify signature is invalid"@,
                        ),
                    )
                } else {
                    finished_verdict(flight)
                },
            },
        },
    }
}

proof fn lemma_after_messages_step(flight: FlightShape, end: int, next: FlightShape)
    requires
        next_message_end(flight) == Some(end),
        after_message(flight, end) == Ok::<FlightShape, Fault>(next),
    ensures
        after_messages(flight) == after_messages(next),
{
}

impl ServerFlight {
    #[verifier::type_invariant]
    closed spec fn inv(self) -> bool {
        self@.in_bounds()
    }

    /// A flight of which nothing has arrived.
    pub fn new(
        suite: CipherSuite,
        client_secret: Vec<u8>,
        server_secret: Vec<u8>,
        master_secret: Vec<u8>,
        transcript: Vec<u8>,
        auth_key: [u8; 32],
    ) -> (flight: ServerFlight)
        ensures
            flight@ == (FlightShape {
                suite,
                client_secret: client_secret@,
                server_secret: server_secret@,
                master_secret: master_secret@,
                transcript: transcript@,
                auth_key: auth_key@,
                seq: 0,
                plaintext: Seq::empty(),
                offset: 0,
                found: 0,
                public_key: None,
                verify_offset: None,
                finished_offset: None,
            }),
    {
        let plaintext: Vec<u8> = Vec::new();
        assert(plaintext@ =~= Seq::<u8>::empty());
        ServerFlight {
            suite,
            client_secret,
            server_secret,
            master_secret,
            transcript,
            auth_key,
            seq: 0,
            plaintext,
            offset: 0,
            found: 0,
            public_key: None,
            verify_offset: None,
            finished_offset: None,
        }
    }

    /// The suite that the handshake negotiated.
    pub fn suite(&self) -> (suite: CipherSuite)
        ensures
            suite == self@.suite,
    {
        self.suite
    }

    /// The client's handshake traffic secret.
    pub fn client_secret(&self) -> (secret: &[u8])
        ensures
            secret@ == self@.client_secret,
    {
        self.client_secret.as_slice()
    }

    /// The secret that the application secrets come from.
    pub fn master_secret(&self) -> (secret: &[u8])
        ensures
            secret@ == self@.master_secret,
    {
        self.master_secret.as_slice()
    }

    /// Whether all four messages have arrived.
    pub fn is_complete(&self) -> (complete: bool)
        ensures
            complete == (self@.found >= 4),
    {
        self.found >= 4
    }

    /// The flight after one more encrypted record, whose header declared the
    /// length that `ciphertext` has.
    pub fn take_record(&self, ciphertext: &[u8]) -> (result: Result<ServerFlight, WireError>)
        requires
            ciphertext@.len() <= MAX_TLS_CIPHERTEXT_LEN,
        ensures
            match after_record(self@, ciphertext@) {
                Ok(flight) => result matches Ok(actual) && actual@ == flight,
                Err(fault) => result matches Err(error) && error@ == fault,
            },
    {
        let (key_bytes, iv) = derive_traffic_keys(self.server_secret.as_slice(), self.suite);
        let key = match AeadKey::new(self.suite, key_bytes.as_slice()) {
            Ok(key) => key,
            Err(error) => {
                return Err(error);
            },
        };
        match decrypt_handshake_message(
            &key,
            iv.as_slice(),
            self.seq,
            ciphertext,
            ciphertext.len() as u16,
        ) {
            Err(error) => Err(error),
            Ok(content) => self.take_content(content.as_slice()),
        }
    }

    fn take_content(&self, content: &[u8]) -> (result: Result<ServerFlight, WireError>)
        requires
            self@.seq < u64::MAX,
        ensures
            match after_content(self@, content@) {
                Ok(flight) => result matches Ok(actual) && actual@ == flight,
                Err(fault) => result matches Err(error) && error@ == fault,
            },
    {
        proof {
            use_type_invariant(self);
        }
        let mut plaintext = to_vec(self.plaintext.as_slice());
        push_bytes(&mut plaintext, content);
        let mut offset: usize = self.offset;
        let mut found: u8 = self.found;
        let mut public_key: Option<[u8; 32]> = self.public_key;
        let mut verify_offset: Option<usize> = self.verify_offset;
        let mut finished_offset: Option<usize> = self.finished_offset;
        let ghost start = FlightShape {
            plaintext: self@.plaintext + content@,
            seq: self@.seq + 1,
            ..self@
        };
        let ghost mut now = start;
        proof {
            assert(forall|at: int, limit: int|
                message_at(self@.plaintext, at, limit) ==> #[trigger] message_at(
                    start.plaintext,
                    at,
                    limit,
                ));
        }
        while found < 4 && plaintext.len() - offset >= 4 && get_u24(plaintext.as_slice(), offset + 1)
            <= plaintext.len() - offset - 4
            invariant
                start == (FlightShape {
                    plaintext: self@.plaintext + content@,
                    seq: self@.seq + 1,
                    ..self@
                }),
                plaintext@ == start.plaintext,
                now == (FlightShape {
                    offset: offset as int,
                    found: found as int,
                    public_key: match public_key {
                        Some(key) => Some(key@),
                        None => None,
                    },
                    verify_offset: match verify_offset {
                        Some(at) => Some(at as int),
                        None => None,
                    },
                    finished_offset: match finished_offset {
                        Some(at) => Some(at as int),
                        None => None,
                    },
                    ..start
                }),
                now.in_bounds(),
                after_messages(start) == after_messages(now),
            decreases plaintext.len() - offset,
        {
            let end: usize = offset + 4 + get_u24(plaintext.as_slice(), offset + 1);
            let message_type = plaintext[offset];
            let expected: u8 = if found == 0 {
                HANDSHAKE_TYPE_ENCRYPTED_EXTENSIONS
            } else if found == 1 {
                HANDSHAKE_TYPE_CERTIFICATE
            } else if found == 2 {
                HANDSHAKE_TYPE_CERTIFICATE_VERIFY
            } else {
                HANDSHAKE_TYPE_FINISHED
            };
            assert(next_message_end(now) == Some(end as int));
            if message_type != expected {
                if message_type == HANDSHAKE_TYPE_COMPRESSED_CERTIFICATE && expected
                    == HANDSHAKE_TYPE_CERTIFICATE {
                    return Err(
                        WireError::new(
                            ErrorKind::InvalidData,
                            "REALITY server compressed its Certificate; this client offers compress_certificate for fingerprint fidelity but does not implement RFC 8879",
                        ),
                    );
                }
                return Err(
                    WireError::new(
                        ErrorKind::InvalidData,
                        "REALITY server handshake message order is invalid",
                    ),
                );
            }
            if message_type == HANDSHAKE_TYPE_CERTIFICATE {
                let message = slice_subrange(plaintext.as_slice(), offset, end);
                match prove_key(message, &self.auth_key) {
                    Ok(key) => {
                        public_key = Some(key);
                    },
                    Err(error) => {
                        return Err(error);
                    },
                }
            }
            if message_type == HANDSHAKE_TYPE_CERTIFICATE_VERIFY {
                verify_offset = Some(offset);
            }
            if message_type == HANDSHAKE_TYPE_FINISHED {
                finished_offset = Some(offset);
            }
            found = found + 1;
            offset = end;
            proof {
                let next = FlightShape {
                    offset: offset as int,
                    found: found as int,
                    public_key: match public_key {
                        Some(key) => Some(key@),
                        None => None,
                    },
                    verify_offset: match verify_offset {
                        Some(at) => Some(at as int),
                        None => None,
                    },
                    finished_offset: match finished_offset {
                        Some(at) => Some(at as int),
                        None => None,
                    },
                    ..start
                };
                assert(after_message(now, end as int) == Ok::<FlightShape, Fault>(next));
                lemma_after_messages_step(now, end as int, next);
                now = next;
            }
        }
        Ok(
            ServerFlight {
                suite: self.suite,
                client_secret: to_vec(self.client_secret.as_slice()),
                server_secret: to_vec(self.server_secret.as_slice()),
                master_secret: to_vec(self.master_secret.as_slice()),
                transcript: to_vec(self.transcript.as_slice()),
                auth_key: self.auth_key,
                seq: self.seq + 1,
                plaintext,
                offset,
                found,
                public_key,
                verify_offset,
                finished_offset,
            },
        )
    }

    fn hash_up_to(&self, at: usize) -> (hash: Vec<u8>)
        requires
            at <= self@.plaintext.len(),
        ensures
            hash@ == flight_hash(self@, at as int),
    {
        let mut data = to_vec(self.transcript.as_slice());
        push_bytes(&mut data, slice_subrange(self.plaintext.as_slice(), 0, at));
        transcript_hash(self.suite, data.as_slice())
    }

    fn verify_finished(&self) -> (result: Result<(), WireError>)
        ensures
            match finished_verdict(self@) {
                Ok(_) => result is Ok,
                Err(fault) => result matches Err(error) && error@ == fault,
            },
    {
        proof {
            use_type_invariant(self);
        }
        let at = match self.finished_offset {
            Some(at) => at,
            None => {
                return Err(
                    WireError::new(
                        ErrorKind::InvalidData,
                        "REALITY server Finished message is missing",
                    ),
                );
            },
        };
        if self.offset != self.plaintext.len() {
            return Err(
                WireError::new(
                    ErrorKind::InvalidData,
                    "unexpected bytes after REALITY server Finished",
                ),
            );
        }
        let length = get_u24(self.plaintext.as_slice(), at + 1);
        if length != self.suite.hash_len() {
            return Err(
                WireError::new(
                    ErrorKind::InvalidData,
                    "REALITY server Finished has an invalid length",
                ),
            );
        }
        let hash = self.hash_up_to(at);
        let expected = compute_finished_verify_data(
            self.suite,
            self.server_secret.as_slice(),
            hash.as_slice(),
        );
        if !constant_time_eq(
            expected.as_slice(),
            slice_subrange(self.plaintext.as_slice(), at + 4, at + 4 + length),
        ) {
            return Err(
                WireError::new(
                    ErrorKind::PermissionDenied,
                    "REALITY server Finished verification failed",
                ),
            );
        }
        Ok(())
    }

    /// Judge a flight with all its messages.
    pub fn verify(&self) -> (result: Result<(), WireError>)
        ensures
            match flight_verdict(self@) {
                Ok(_) => result is Ok,
                Err(fault) => result matches Err(error) && error@ == fault,
            },
    {
        proof {
            use_type_invariant(self);
        }
        let key = match self.public_key {
            Some(key) => key,
            None => {
                return Err(
                    WireError::new(
                        ErrorKind::PermissionDenied,
                        "REALITY handshake failed: Certificate message not received or not verified",
                    ),
                );
            },
        };
        let at = match self.verify_offset {
            Some(at) => at,
            None => {
                return Err(
                    WireError::new(
                        ErrorKind::PermissionDenied,
                        "REALITY handshake failed: CertificateVerify not verified",
                    ),
                );
            },
        };
        let end = at + 4 + get_u24(self.plaintext.as_slice(), at + 1);
        let signature = match extract_certificate_verify_signature(
            slice_subrange(self.plaintext.as_slice(), at, end),
        ) {
            Ok(signature) => signature,
            Err(error) => {
                return Err(error);
            },
        };
        let hash = self.hash_up_to(at);
        if let Err(error) = verify_certificate_verify_signature(
            &key,
            signature.as_slice(),
            hash.as_slice(),
        ) {
            return Err(error);
        }
        self.verify_finished()
    }

    /// The hash of the whole handshake.
    pub fn handshake_hash(&self) -> (hash: Vec<u8>)
        ensures
            hash@ == hash_of(self@.suite, self@.transcript + self@.plaintext),
    {
        let hash = self.hash_up_to(self.plaintext.len());
        assert(self@.plaintext.subrange(0, self@.plaintext.len() as int) =~= self@.plaintext);
        hash
    }
}

fn prove_key(message: &[u8], auth_key: &[u8; 32]) -> (result: Result<[u8; 32], WireError>)
    ensures
        match proven_key(message@, auth_key@) {
            Ok(key) => result matches Ok(actual) && actual@ == key,
            Err(fault) => result matches Err(error) && error@ == fault,
        },
{
    let der = match extract_certificate_der(message) {
        Ok(der) => der,
        Err(error) => {
            return Err(error);
        },
    };
    if let Err(error) = verify_certificate_hmac(der, auth_key) {
        return Err(error);
    }
    extract_ed25519_public_key(der)
}

} // verus!
