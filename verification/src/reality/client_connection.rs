//! The client side of a connection, as a state machine over bytes: ciphertext
//! comes in and goes out, plaintext goes in and comes out, and nothing here
//! touches a socket.
use crate::crypto::wipe;
use crate::error::{invalid_data, ErrorKind, Fault, WireError};
use crate::octets::{copy_array, get_u16, push_bytes, read16, split_front, to_vec};
use crate::reality::cipher_suite::CipherSuite;
use crate::reality::common::{
    ALERT_DESC_CLOSE_NOTIFY, ALERT_LEVEL_WARNING, CIPHERTEXT_READ_BUF_CAPACITY, CONTENT_TYPE_ALERT,
    CONTENT_TYPE_APPLICATION_DATA, CONTENT_TYPE_CHANGE_CIPHER_SPEC, CONTENT_TYPE_HANDSHAKE,
    HANDSHAKE_TYPE_FINISHED, TLS_MAX_RECORD_SIZE, TLS_RECORD_HEADER_SIZE,
};
use crate::reality::handshake::{
    after_record, checked_record_len, flight_verdict, handshake_state_error, record_length,
    server_hello_verdict, state_fault, validate_server_hello, FlightShape, ServerFlight,
};
use crate::reality::group::NamedGroup;
use crate::reality::hello_profile::{negotiable_suites, HelloProfile, ProfileShape};
use crate::reality::hello_tables::RealityHelloProfile;
use crate::reality::key_exchange::{
    completed, exchange_fault, other_fault, refused_outright, serves, unexecutable_fault,
    ClientKeyExchange,
    ExchangeShape,
};
use crate::reality::key_schedule::{
    compute_finished_verify_data, derive_application_secrets, derive_handshake_keys,
    derive_traffic_keys, derived_secret, finished_data, handshake_secret, hash_of,
    master_secret_of, traffic_iv, traffic_key, transcript_hash,
};
use crate::reality::messages::{construct_finished, handshake_message};
use crate::reality::prepared_hello::{
    plain_hello, prepare_hello, prepared, profile_groups, resealed, ClientIdentity, HelloDraws,
    IdentityShape, PreparedShape,
};
use crate::reality::records::{
    opened_record, sealed_prefix, sealed_record, sealed_stream, AeadKey, RecordDecryptor,
    RecordEncryptor, SealState,
};
use crate::reality::server_hello::{
    extract_server_cipher_suite, extract_server_key_share, selected_suite, server_share,
};
use crate::text::{decimal, hex_byte, hex_word, push_decimal, push_hex_byte, push_hex_word, text_of};
use std::sync::Arc;
use vstd::prelude::*;
use vstd::slice::slice_subrange;
use vstd::string::*;
use vstd::utf8::encode_utf8;

verus! {

/// Configuration of a client connection.
#[derive(Clone)]
pub struct RealityClientConfig {
    /// The server's X25519 public key.
    pub public_key: [u8; 32],
    pub short_id: [u8; 8],
    /// The server name of the hello.
    pub server_name: String,
    /// Which hello to write. Its suites are both what the hello offers and what
    /// a ServerHello is checked against.
    pub hello_profile: RealityHelloProfile,
}

/// The identity in a configuration.
pub open spec fn identity_of(config: RealityClientConfig) -> IdentityShape {
    IdentityShape {
        public_key: config.public_key@,
        short_id: config.short_id@,
        server_name: encode_utf8(config.server_name@),
    }
}

/// How far the handshake is.
enum HandshakeState {
    /// The hello is out, the ServerHello is not in.
    AwaitingServerHello {
        client_hello: Vec<u8>,
        key_exchange: ClientKeyExchange,
        auth_key: [u8; 32],
    },
    /// The server's encrypted messages are coming in.
    ProcessingHandshake(ServerFlight),
    Complete,
}

/// How far a handshake is.
pub enum PhaseShape {
    AwaitingServerHello { client_hello: Seq<u8>, key_exchange: ExchangeShape, auth_key: Seq<u8> },
    ProcessingHandshake(FlightShape),
    Complete,
}

impl View for HandshakeState {
    type V = PhaseShape;

    closed spec fn view(&self) -> PhaseShape {
        match self {
            HandshakeState::AwaitingServerHello {
                client_hello,
                key_exchange,
                auth_key,
            } => PhaseShape::AwaitingServerHello {
                client_hello: client_hello@,
                key_exchange: key_exchange@,
                auth_key: auth_key@,
            },
            HandshakeState::ProcessingHandshake(flight) => PhaseShape::ProcessingHandshake(flight@),
            HandshakeState::Complete => PhaseShape::Complete,
        }
    }
}

/// The client side of a connection.
pub struct RealityClientConnection {
    profile: Arc<HelloProfile>,
    handshake_state: HandshakeState,
    app_read: Option<(AeadKey, [u8; 12])>,
    app_write: Option<(AeadKey, [u8; 12])>,
    read_seq: u64,
    write_seq: u64,
    ciphertext_read_buf: Vec<u8>,
    ciphertext_write_buf: Vec<u8>,
    plaintext_read_buf: Vec<u8>,
    plaintext_write_buf: Vec<u8>,
    received_close_notify: bool,
    fatal_error: Option<ErrorKind>,
}

/// What a connection holds.
pub struct ConnectionShape {
    pub profile: ProfileShape,
    pub phase: PhaseShape,
    /// The encryption of application data from the server.
    pub reading: Option<SealState>,
    /// The encryption of application data to the server.
    pub writing: Option<SealState>,
    /// Ciphertext that came in.
    pub incoming: Seq<u8>,
    /// Ciphertext that has to go out.
    pub outgoing: Seq<u8>,
    /// Plaintext that came in.
    pub received: Seq<u8>,
    /// Plaintext that has to go out.
    pub pending: Seq<u8>,
    /// Whether the server said that it closes.
    pub closed: bool,
    /// The kind of the failure that ended the connection.
    pub failed: Option<ErrorKind>,
}

/// The encryption under a key and an IV, at a record number.
pub open spec fn seal_of(keys: Option<(AeadKey, [u8; 12])>, seq: u64) -> Option<SealState> {
    match keys {
        Some((key, iv)) => Some(
            SealState { suite: key@.0, key: key@.1, iv: iv@, seq: seq as int },
        ),
        None => None,
    }
}

impl View for RealityClientConnection {
    type V = ConnectionShape;

    closed spec fn view(&self) -> ConnectionShape {
        ConnectionShape {
            profile: self.profile@,
            phase: self.handshake_state@,
            reading: seal_of(self.app_read, self.read_seq),
            writing: seal_of(self.app_write, self.write_seq),
            incoming: self.ciphertext_read_buf@,
            outgoing: self.ciphertext_write_buf@,
            received: self.plaintext_read_buf@,
            pending: self.plaintext_write_buf@,
            closed: self.received_close_notify,
            failed: self.fatal_error,
        }
    }
}

/// A connection whose hello is about to go out.
pub open spec fn opened_connection(
    profile: ProfileShape,
    exchange: ExchangeShape,
    hello: PreparedShape,
) -> ConnectionShape {
    ConnectionShape {
        profile,
        phase: PhaseShape::AwaitingServerHello {
            client_hello: hello.client_hello,
            key_exchange: exchange,
            auth_key: hello.auth_key,
        },
        reading: None,
        writing: None,
        incoming: Seq::empty(),
        outgoing: hello.record,
        received: Seq::empty(),
        pending: Seq::empty(),
        closed: false,
        failed: None,
    }
}

/// Whether a connection is one that some fresh keys and draws make.
pub open spec fn opens_as(
    profile: ProfileShape,
    identity: IdentityShape,
    connection: ConnectionShape,
) -> bool {
    exists|exchange: ExchangeShape, draws: HelloDraws|
        {
            &&& serves(exchange, profile_groups(profile), profile.reuse_classical_key_share)
            &&& (#[trigger] prepared(profile, identity, exchange, draws)) matches Ok(hello)
                && connection == opened_connection(profile, exchange, hello)
        }
}

/// Whether a fault is the clock's, one of making the keys that the profile asks
/// for, or one that such keys and some draws make.
pub open spec fn opening_fault(
    profile: ProfileShape,
    identity: IdentityShape,
    fault: Fault,
) -> bool {
    ||| fault == other_fault("System time error"@)
    ||| exchange_fault(profile_groups(profile), fault)
    ||| exists|exchange: ExchangeShape, draws: HelloDraws|
        {
            &&& serves(exchange, profile_groups(profile), profile.reuse_classical_key_share)
            &&& (#[trigger] prepared(profile, identity, exchange, draws)) == Err::<
                PreparedShape,
                Fault,
            >(fault)
        }
}

/// The connection with the first `count` bytes of its ciphertext gone.
pub open spec fn consumed(connection: ConnectionShape, count: int) -> ConnectionShape {
    ConnectionShape {
        incoming: connection.incoming.subrange(count, connection.incoming.len() as int),
        ..connection
    }
}

/// The suite that a ServerHello negotiates under a profile.
pub open spec fn negotiated_suite(profile: ProfileShape, hello: Seq<u8>) -> Result<
    CipherSuite,
    Fault,
> {
    match selected_suite(hello) {
        Err(fault) => Err(fault),
        Ok(id) => match CipherSuite::spec_from_id(id as u16) {
            None => Err(
                invalid_data(
                    "Server selected unsupported cipher suite: 0x"@ + hex_word(id as u16),
                ),
            ),
            Some(suite) => if negotiable_suites(
                profile.cipher_suites,
                profile.cipher_suites.len(),
            ).contains(suite) {
                Ok(suite)
            } else {
                Err(
                    invalid_data(
                        "server selected cipher suite 0x"@ + hex_word(id as u16) + ", which the "@
                            + profile.name + " hello does not offer as negotiable"@,
                    ),
                )
            },
        },
    }
}

/// The flight that follows a ServerHello: its secrets come from the completed
/// exchange and the transcript of both hellos.
pub open spec fn flight_after(
    suite: CipherSuite,
    secret: Seq<u8>,
    transcript: Seq<u8>,
    auth_key: Seq<u8>,
) -> FlightShape {
    FlightShape {
        suite,
        client_secret: derived_secret(
            suite,
            handshake_secret(suite, secret),
            "c hs traffic"@,
            hash_of(suite, transcript),
        ),
        server_secret: derived_secret(
            suite,
            handshake_secret(suite, secret),
            "s hs traffic"@,
            hash_of(suite, transcript),
        ),
        master_secret: master_secret_of(suite, secret),
        transcript,
        auth_key,
        seq: 0,
        plaintext: Seq::empty(),
        offset: 0,
        found: 0,
        public_key: None,
        verify_offset: None,
        finished_offset: None,
    }
}

/// What a ServerHello leads to.
pub open spec fn negotiated(
    profile: ProfileShape,
    client_hello: Seq<u8>,
    exchange: ExchangeShape,
    auth_key: Seq<u8>,
    hello: Seq<u8>,
) -> Result<FlightShape, Fault> {
    match server_hello_verdict(hello, client_hello) {
        Err(fault) => Err(fault),
        Ok(_) => match negotiated_suite(profile, hello) {
            Err(fault) => Err(fault),
            Ok(suite) => match server_share(hello) {
                Err(fault) => Err(fault),
                Ok(share) => match completed(exchange, share) {
                    Err(fault) => Err(fault),
                    Ok(secret) => Ok(flight_after(suite, secret, client_hello + hello, auth_key)),
                },
            },
        },
    }
}

/// One step on the ServerHello: whether a record was taken, or the fault; and
/// the connection afterwards. A refused record is gone all the same.
pub open spec fn server_hello_step(connection: ConnectionShape) -> (
    Result<bool, Fault>,
    ConnectionShape,
) {
    match connection.phase {
        PhaseShape::AwaitingServerHello { client_hello, key_exchange, auth_key } => {
            let incoming = connection.incoming;
            if incoming.len() < TLS_RECORD_HEADER_SIZE {
                (Ok(false), connection)
            } else if incoming[0] != CONTENT_TYPE_HANDSHAKE || read16(incoming, 1) != 0x0303 {
                (Err(invalid_data("invalid REALITY ServerHello record header"@)), connection)
            } else {
                match record_length(incoming) {
                    Err(fault) => (Err(fault), connection),
                    Ok(length) => if incoming.len() < length {
                        (Ok(false), connection)
                    } else {
                        match negotiated(
                            connection.profile,
                            client_hello,
                            key_exchange,
                            auth_key,
                            incoming.subrange(5, length),
                        ) {
                            Err(fault) => (Err(fault), consumed(connection, length)),
                            Ok(flight) => (
                                Ok(true),
                                ConnectionShape {
                                    phase: PhaseShape::ProcessingHandshake(flight),
                                    ..consumed(connection, length)
                                },
                            ),
                        }
                    },
                }
            }
        },
        _ => (Err(state_fault("ServerHello"@)), connection),
    }
}

/// The encryption of application data under a secret.
pub open spec fn application_seal(suite: CipherSuite, secret: Seq<u8>) -> SealState {
    SealState {
        suite,
        key: traffic_key(suite, secret),
        iv: traffic_iv(suite, secret),
        seq: 0,
    }
}

/// The records of the client's Finished message, which covers the whole flight.
pub open spec fn client_finished(flight: FlightShape) -> Result<(Seq<u8>, nat), Fault> {
    sealed_stream(
        application_seal(flight.suite, flight.client_secret),
        handshake_message(
            HANDSHAKE_TYPE_FINISHED,
            finished_data(
                flight.suite,
                flight.client_secret,
                hash_of(flight.suite, flight.transcript + flight.plaintext),
            ),
        ),
        CONTENT_TYPE_HANDSHAKE,
    )
}

/// The connection once a verified flight has been answered.
pub open spec fn established(
    connection: ConnectionShape,
    flight: FlightShape,
    records: Seq<u8>,
) -> ConnectionShape {
    let hash = hash_of(flight.suite, flight.transcript + flight.plaintext);
    ConnectionShape {
        phase: PhaseShape::Complete,
        reading: Some(
            application_seal(
                flight.suite,
                derived_secret(flight.suite, flight.master_secret, "s ap traffic"@, hash),
            ),
        ),
        writing: Some(
            application_seal(
                flight.suite,
                derived_secret(flight.suite, flight.master_secret, "c ap traffic"@, hash),
            ),
        ),
        outgoing: connection.outgoing + records,
        ..connection
    }
}

/// The outcome of a record of the server's flight; the record is gone already.
pub open spec fn flight_step(connection: ConnectionShape, flight: FlightShape, body: Seq<u8>) -> (
    Result<bool, Fault>,
    ConnectionShape,
) {
    match after_record(flight, body) {
        Err(fault) => (Err(fault), connection),
        Ok(next) => if next.found < 4 {
            (
                Ok(true),
                ConnectionShape { phase: PhaseShape::ProcessingHandshake(next), ..connection },
            )
        } else {
            match flight_verdict(next) {
                Err(fault) => (Err(fault), connection),
                Ok(_) => match client_finished(next) {
                    Err(fault) => (Err(fault), connection),
                    Ok((records, _)) => (Ok(true), established(connection, next, records)),
                },
            }
        },
    }
}

/// One step on the server's flight: whether a record was taken, or the fault;
/// and the connection afterwards.
pub open spec fn encrypted_handshake_step(connection: ConnectionShape) -> (
    Result<bool, Fault>,
    ConnectionShape,
) {
    match connection.phase {
        PhaseShape::ProcessingHandshake(flight) => {
            let incoming = connection.incoming;
            if incoming.len() < TLS_RECORD_HEADER_SIZE {
                (Ok(false), connection)
            } else if read16(incoming, 1) != 0x0303 {
                (Err(invalid_data("invalid REALITY TLS record version"@)), connection)
            } else {
                match record_length(incoming) {
                    Err(fault) => (Err(fault), connection),
                    Ok(length) => if incoming.len() < length {
                        (Ok(false), connection)
                    } else if incoming[0] == CONTENT_TYPE_CHANGE_CIPHER_SPEC {
                        (Ok(true), consumed(connection, length))
                    } else if incoming[0] != CONTENT_TYPE_APPLICATION_DATA {
                        (
                            Err(
                                invalid_data(
                                    "Expected Application Data record, got 0x"@ + hex_byte(
                                        incoming[0],
                                    ),
                                ),
                            ),
                            connection,
                        )
                    } else {
                        flight_step(
                            consumed(connection, length),
                            flight,
                            incoming.subrange(5, length),
                        )
                    },
                }
            }
        },
        _ => (Err(state_fault("server handshake messages"@)), connection),
    }
}

/// What an alert does to a connection.
pub enum AlertVerdict {
    /// The server closes: what follows is ignored.
    Close,
    /// The server gave up.
    Abort,
    /// A warning, or too short to say anything.
    Ignore,
}

/// What an alert does to a connection.
pub open spec fn alert_verdict(alert: Seq<u8>) -> AlertVerdict {
    if alert.len() < 2 {
        AlertVerdict::Ignore
    } else if alert[1] == ALERT_DESC_CLOSE_NOTIFY {
        AlertVerdict::Close
    } else if alert[0] != ALERT_LEVEL_WARNING {
        AlertVerdict::Abort
    } else {
        AlertVerdict::Ignore
    }
}

/// The connection after every whole record of application data, or after the
/// first that ends it; and the fault, where one does.
pub open spec fn application_step(connection: ConnectionShape) -> (
    Result<(), Fault>,
    ConnectionShape,
)
    decreases connection.incoming.len(),
{
    let incoming = connection.incoming;
    match connection.reading {
        None => (Err(state_fault("application traffic keys"@)), connection),
        Some(reading) => if incoming.len() < TLS_RECORD_HEADER_SIZE {
            (Ok(()), connection)
        } else {
            match record_length(incoming) {
                Err(fault) => (Err(fault), connection),
                Ok(length) => if incoming.len() < length {
                    (Ok(()), connection)
                } else {
                    match opened_record(reading, incoming.subrange(5, length), (length - 5) as u16) {
                        Err(fault) => (Err(fault), connection),
                        Ok((content_type, content)) => {
                            let counted = ConnectionShape {
                                reading: Some(SealState { seq: reading.seq + 1, ..reading }),
                                ..connection
                            };
                            if content_type == CONTENT_TYPE_APPLICATION_DATA {
                                application_step(
                                    ConnectionShape {
                                        received: connection.received + content,
                                        ..consumed(counted, length)
                                    },
                                )
                            } else if content_type == CONTENT_TYPE_ALERT {
                                match alert_verdict(content) {
                                    AlertVerdict::Close => (
                                        Ok(()),
                                        ConnectionShape { closed: true, ..counted },
                                    ),
                                    AlertVerdict::Abort => (
                                        Err(
                                            (
                                                ErrorKind::ConnectionAborted,
                                                "received fatal alert: "@ + decimal(
                                                    content[1] as nat,
                                                ),
                                            ),
                                        ),
                                        counted,
                                    ),
                                    AlertVerdict::Ignore => application_step(
                                        consumed(counted, length),
                                    ),
                                }
                            } else {
                                (
                                    Err(
                                        invalid_data(
                                            "REALITY record carries an unexpected content type"@,
                                        ),
                                    ),
                                    counted,
                                )
                            }
                        },
                    }
                },
            }
        },
    }
}

/// The connection after every step that its ciphertext allows.
pub open spec fn advanced(connection: ConnectionShape) -> (Result<(), Fault>, ConnectionShape)
    decreases connection.incoming.len(),
{
    match connection.phase {
        PhaseShape::Complete => application_step(connection),
        PhaseShape::AwaitingServerHello { .. } => match server_hello_step(connection) {
            (Err(fault), next) => (Err(fault), next),
            (Ok(taken), next) => if taken && next.incoming.len() < connection.incoming.len() {
                advanced(next)
            } else {
                (Ok(()), next)
            },
        },
        PhaseShape::ProcessingHandshake(_) => match encrypted_handshake_step(connection) {
            (Err(fault), next) => (Err(fault), next),
            (Ok(taken), next) => if taken && next.incoming.len() < connection.incoming.len() {
                advanced(next)
            } else {
                (Ok(()), next)
            },
        },
    }
}

/// Whether a failure of this kind ends a connection.
pub open spec fn ends_connection(kind: ErrorKind) -> bool {
    kind == ErrorKind::InvalidData || kind == ErrorKind::PermissionDenied || kind
        == ErrorKind::ConnectionAborted
}

/// What processing the ciphertext comes to: a failed connection stays failed,
/// a closed one takes nothing more, and a failure that ends the connection is
/// kept.
pub open spec fn processed(connection: ConnectionShape) -> (Result<(), Fault>, ConnectionShape) {
    match connection.failed {
        Some(kind) => (Err((kind, "connection previously failed"@)), connection),
        None => if connection.closed {
            (Ok(()), connection)
        } else {
            match advanced(connection) {
                (Err(fault), next) => (
                    Err(fault),
                    ConnectionShape {
                        failed: if ends_connection(fault.0) {
                            Some(fault.0)
                        } else {
                            next.failed
                        },
                        ..next
                    },
                ),
                (Ok(_), next) => (Ok(()), next),
            }
        },
    }
}

/// How many more bytes of ciphertext a connection takes in one read.
pub open spec fn read_room(connection: ConnectionShape) -> int {
    let free = CIPHERTEXT_READ_BUF_CAPACITY - connection.incoming.len();
    if free <= 0 {
        0
    } else if free < TLS_MAX_RECORD_SIZE {
        free
    } else {
        TLS_MAX_RECORD_SIZE as int
    }
}

/// The connection with its pending plaintext encrypted, or the fault.
pub open spec fn flushed(connection: ConnectionShape) -> (Result<(), Fault>, ConnectionShape) {
    if connection.phase !is Complete || connection.pending.len() == 0 {
        (Ok(()), connection)
    } else {
        match connection.writing {
            None => (Err(invalid_data("Application keys not available"@)), connection),
            Some(writing) => {
                let (records, count) = sealed_prefix(
                    writing,
                    connection.pending,
                    CONTENT_TYPE_APPLICATION_DATA,
                );
                let next = ConnectionShape {
                    outgoing: connection.outgoing + records,
                    writing: Some(SealState { seq: writing.seq + count, ..writing }),
                    ..connection
                };
                match sealed_stream(writing, connection.pending, CONTENT_TYPE_APPLICATION_DATA) {
                    Err(fault) => (Err(fault), next),
                    Ok(_) => (Ok(()), ConnectionShape { pending: Seq::empty(), ..next }),
                }
            },
        }
    }
}

/// The connection with a close notification queued, where it can send one.
pub open spec fn closing(connection: ConnectionShape) -> ConnectionShape {
    match (connection.phase, connection.writing) {
        (PhaseShape::Complete, Some(writing)) => match sealed_record(
            writing,
            seq![ALERT_LEVEL_WARNING, ALERT_DESC_CLOSE_NOTIFY],
            CONTENT_TYPE_ALERT,
        ) {
            Err(_) => connection,
            Ok(record) => ConnectionShape {
                outgoing: connection.outgoing + record,
                writing: Some(SealState { seq: writing.seq + 1, ..writing }),
                ..connection
            },
        },
        _ => connection,
    }
}

fn negotiate_suite(profile: &HelloProfile, hello: &[u8]) -> (result: Result<CipherSuite, WireError>)
    ensures
        match negotiated_suite(profile@, hello@) {
            Ok(suite) => result == Ok::<CipherSuite, WireError>(suite),
            Err(fault) => result matches Err(error) && error@ == fault,
        },
{
    let id = match extract_server_cipher_suite(hello) {
        Ok(id) => id,
        Err(error) => {
            return Err(error);
        },
    };
    let suite = match CipherSuite::from_id(id) {
        Some(suite) => suite,
        None => {
            let mut message = text_of("Server selected unsupported cipher suite: 0x");
            push_hex_word(&mut message, id);
            return Err(WireError { kind: ErrorKind::InvalidData, message });
        },
    };
    let offered = profile.negotiable_cipher_suites();
    for i in 0..offered.len()
        invariant
            offered@ == negotiable_suites(profile@.cipher_suites, profile@.cipher_suites.len()),
            selected_suite(hello@) == Ok::<int, Fault>(id as int),
            CipherSuite::spec_from_id(id) == Some(suite),
            forall|j: int| 0 <= j < i ==> offered@[j] != suite,
    {
        if offered[i] == suite {
            assert(offered@.contains(suite));
            return Ok(suite);
        }
    }
    let mut message = text_of("server selected cipher suite 0x");
    push_hex_word(&mut message, id);
    message.append(", which the ");
    message.append(profile.name);
    message.append(" hello does not offer as negotiable");
    Err(WireError { kind: ErrorKind::InvalidData, message })
}

/// Judge a ServerHello and derive the secrets of the flight behind it.
pub fn negotiate(
    profile: &HelloProfile,
    client_hello: &[u8],
    key_exchange: &ClientKeyExchange,
    auth_key: [u8; 32],
    hello: &[u8],
) -> (result: Result<ServerFlight, WireError>)
    ensures
        match negotiated(profile@, client_hello@, key_exchange@, auth_key@, hello@) {
            Ok(flight) => result matches Ok(actual) && actual@ == flight,
            Err(fault) => result matches Err(error) && error@ == fault,
        },
{
    if let Err(error) = validate_server_hello(hello, client_hello) {
        return Err(error);
    }
    let suite = match negotiate_suite(profile, hello) {
        Ok(suite) => suite,
        Err(error) => {
            return Err(error);
        },
    };
    let share = match extract_server_key_share(hello) {
        Ok(share) => share,
        Err(error) => {
            return Err(error);
        },
    };
    let mut secret = match key_exchange.complete(&share) {
        Ok(secret) => secret,
        Err(error) => {
            return Err(error);
        },
    };
    let mut transcript = to_vec(client_hello);
    push_bytes(&mut transcript, hello);
    let hash = transcript_hash(suite, transcript.as_slice());
    let keys = derive_handshake_keys(suite, secret.as_slice(), hash.as_slice());
    wipe(&mut secret);
    Ok(
        ServerFlight::new(
            suite,
            keys.client_handshake_traffic_secret,
            keys.server_handshake_traffic_secret,
            keys.master_secret,
            transcript,
            auth_key,
        ),
    )
}

fn application_keys(suite: CipherSuite, secret: &[u8]) -> (result: Result<
    (AeadKey, [u8; 12]),
    WireError,
>)
    ensures
        result matches Ok(keys) && seal_of(Some(keys), 0) == Some(
            application_seal(suite, secret@),
        ),
{
    let (mut key_bytes, iv) = derive_traffic_keys(secret, suite);
    let result = match AeadKey::new(suite, key_bytes.as_slice()) {
        Ok(key) => Ok((key, copy_array(iv.as_slice()))),
        Err(error) => Err(error),
    };
    wipe(&mut key_bytes);
    result
}

impl RealityClientConnection {
    /// Open a connection with a key exchange and draws that are at hand. Sealing the
    /// hello changes nothing but its session id.
    pub fn with_draws(
        config: &RealityClientConfig,
        profile: Arc<HelloProfile>,
        key_exchange: ClientKeyExchange,
        draws: HelloDraws,
    ) -> (result: Result<RealityClientConnection, WireError>)
        ensures
            match prepared(profile@, identity_of(*config), key_exchange@, draws) {
                Ok(hello) => result matches Ok(connection) && connection@ == opened_connection(
                    profile@,
                    key_exchange@,
                    hello,
                ),
                Err(fault) => result matches Err(error) && error@ == fault,
            },
            result matches Ok(connection) ==> (connection@.phase matches
                PhaseShape::AwaitingServerHello { client_hello, .. } && plain_hello(
                profile@,
                identity_of(*config),
                key_exchange@,
                draws,
            ) matches Ok(plain) && resealed(plain, client_hello)),
    {
        let identity = ClientIdentity {
            public_key: &config.public_key,
            short_id: &config.short_id,
            server_name: config.server_name.as_str(),
        };
        let hello = match prepare_hello(&profile, &identity, &key_exchange, draws) {
            Ok(hello) => hello,
            Err(error) => {
                return Err(error);
            },
        };
        let connection = RealityClientConnection {
            profile,
            handshake_state: HandshakeState::AwaitingServerHello {
                client_hello: hello.client_hello,
                key_exchange,
                auth_key: hello.auth_key,
            },
            app_read: None,
            app_write: None,
            read_seq: 0,
            write_seq: 0,
            ciphertext_read_buf: Vec::with_capacity(CIPHERTEXT_READ_BUF_CAPACITY),
            ciphertext_write_buf: hello.record,
            plaintext_read_buf: Vec::new(),
            plaintext_write_buf: Vec::new(),
            received_close_notify: false,
            fatal_error: None,
        };
        assert(connection@.incoming =~= Seq::<u8>::empty());
        assert(connection@.received =~= Seq::<u8>::empty());
        assert(connection@.pending =~= Seq::<u8>::empty());
        Ok(connection)
    }

    /// Open a connection that writes `profile`.
    ///
    /// The keys and the draws are fresh. Whatever they are, the connection is
    /// the one that they make, and an error is one that they make or one of the
    /// generators'. A profile whose first share beyond the plain one cannot be
    /// made is always refused.
    pub fn with_profile(config: &RealityClientConfig, profile: Arc<HelloProfile>) -> (result:
        Result<RealityClientConnection, WireError>)
        ensures
            result matches Ok(connection) ==> opens_as(profile@, identity_of(*config), connection@),
            result matches Err(error) ==> opening_fault(profile@, identity_of(*config), error@),
            forall|group: NamedGroup| #[trigger]
                refused_outright(profile_groups(profile@), group) ==> (result matches Err(error)
                    && error@ == unexecutable_fault(group)),
    {
        let groups = profile.key_share_groups();
        let key_exchange = match ClientKeyExchange::generate_with_reuse(
            groups.as_slice(),
            profile.reuse_classical_key_share,
        ) {
            Ok(key_exchange) => key_exchange,
            Err(error) => {
                return Err(error);
            },
        };
        let draws = match HelloDraws::draw() {
            Ok(draws) => draws,
            Err(error) => {
                return Err(error);
            },
        };
        Self::with_draws(config, profile, key_exchange, draws)
    }

    /// Open a connection that writes the configured profile.
    pub fn new(config: RealityClientConfig) -> (result: Result<RealityClientConnection, WireError>)
        ensures
            result matches Ok(connection) ==> opens_as(
                config.hello_profile.shape(),
                identity_of(config),
                connection@,
            ),
            result matches Err(error) ==> opening_fault(
                config.hello_profile.shape(),
                identity_of(config),
                error@,
            ),
            forall|group: NamedGroup| #[trigger]
                refused_outright(profile_groups(config.hello_profile.shape()), group) ==> (result
                    matches Err(error) && error@ == unexecutable_fault(group)),
    {
        Self::with_profile(&config, Arc::new(config.hello_profile.table()))
    }

    /// The hello that the transcript starts with, while its answer is awaited.
    pub fn client_hello(&self) -> (hello: Option<&[u8]>)
        ensures
            match self@.phase {
                PhaseShape::AwaitingServerHello { client_hello, .. } => hello matches Some(bytes)
                    && bytes@ == client_hello,
                _ => hello is None,
            },
    {
        match &self.handshake_state {
            HandshakeState::AwaitingServerHello { client_hello, .. } => Some(
                client_hello.as_slice(),
            ),
            _ => None,
        }
    }

    /// Go on to a flight whose secrets are known.
    pub fn await_flight(&mut self, flight: ServerFlight)
        ensures
            final(self)@ == (ConnectionShape {
                phase: PhaseShape::ProcessingHandshake(flight@),
                ..old(self)@
            }),
    {
        self.handshake_state = HandshakeState::ProcessingHandshake(flight);
    }

    /// How many bytes the next read of ciphertext may bring.
    pub fn read_limit(&self) -> (result: Result<usize, WireError>)
        ensures
            if read_room(self@) == 0 {
                result matches Err(error) && error@ == invalid_data(
                    "REALITY ciphertext buffer limit exceeded"@,
                )
            } else {
                result matches Ok(limit) && limit == read_room(self@)
            },
    {
        if self.ciphertext_read_buf.len() >= CIPHERTEXT_READ_BUF_CAPACITY {
            return Err(
                WireError::new(ErrorKind::InvalidData, "REALITY ciphertext buffer limit exceeded"),
            );
        }
        let free = CIPHERTEXT_READ_BUF_CAPACITY - self.ciphertext_read_buf.len();
        if free < TLS_MAX_RECORD_SIZE {
            Ok(free)
        } else {
            Ok(TLS_MAX_RECORD_SIZE)
        }
    }

    /// Take ciphertext from the front of `input`, as much as there is room for,
    /// and say how much that was.
    pub fn read_tls(&mut self, input: &[u8]) -> (result: Result<usize, WireError>)
        ensures
            if read_room(old(self)@) == 0 {
                result matches Err(error) && error@ == invalid_data(
                    "REALITY ciphertext buffer limit exceeded"@,
                ) && final(self)@ == old(self)@
            } else {
                result matches Ok(count) && {
                    &&& count == if input@.len() < read_room(old(self)@) {
                        input@.len() as int
                    } else {
                        read_room(old(self)@)
                    }
                    &&& final(self)@ == (ConnectionShape {
                        incoming: old(self)@.incoming + input@.subrange(0, count as int),
                        ..old(self)@
                    })
                }
            },
    {
        let limit = match self.read_limit() {
            Ok(limit) => limit,
            Err(error) => {
                return Err(error);
            },
        };
        let count: usize = if input.len() < limit {
            input.len()
        } else {
            limit
        };
        push_bytes(&mut self.ciphertext_read_buf, slice_subrange(input, 0, count));
        Ok(count)
    }

    /// Process what came in and advance as far as it goes.
    pub fn process_new_packets(&mut self) -> (result: Result<(), WireError>)
        ensures
            final(self)@ == processed(old(self)@).1,
            match processed(old(self)@).0 {
                Ok(_) => result is Ok,
                Err(fault) => result matches Err(error) && error@ == fault,
            },
    {
        if let Some(kind) = self.fatal_error {
            return Err(WireError::new(kind, "connection previously failed"));
        }
        if self.received_close_notify {
            return Ok(());
        }
        match self.process_new_packets_inner() {
            Ok(()) => Ok(()),
            Err(error) => {
                match error.kind {
                    ErrorKind::InvalidData
                    | ErrorKind::PermissionDenied
                    | ErrorKind::ConnectionAborted => {
                        self.fatal_error = Some(error.kind);
                    },
                    _ => {},
                }
                Err(error)
            },
        }
    }

    fn process_new_packets_inner(&mut self) -> (result: Result<(), WireError>)
        ensures
            final(self)@ == advanced(old(self)@).1,
            match advanced(old(self)@).0 {
                Ok(_) => result is Ok,
                Err(fault) => result matches Err(error) && error@ == fault,
            },
    {
        loop
            invariant
                advanced(self@) == advanced(old(self)@),
            decreases self@.incoming.len(),
        {
            let ghost before = self@;
            let taken = match &self.handshake_state {
                HandshakeState::Complete => {
                    return self.process_application_data();
                },
                HandshakeState::AwaitingServerHello { .. } => self.process_server_hello(),
                HandshakeState::ProcessingHandshake(_) => self.process_encrypted_handshake(),
            };
            match taken {
                Err(error) => {
                    return Err(error);
                },
                Ok(taken) => {
                    if !taken {
                        return Ok(());
                    }
                },
            }
        }
    }

    /// Process the ServerHello. Whether a record was taken.
    pub fn process_server_hello(&mut self) -> (result: Result<bool, WireError>)
        ensures
            final(self)@ == server_hello_step(old(self)@).1,
            match server_hello_step(old(self)@).0 {
                Ok(taken) => result == Ok::<bool, WireError>(taken),
                Err(fault) => result matches Err(error) && error@ == fault,
            },
            result matches Ok(taken) && taken ==> final(self)@.incoming.len() < old(
                self,
            )@.incoming.len(),
    {
        match &self.handshake_state {
            HandshakeState::AwaitingServerHello { client_hello, key_exchange, auth_key } => {
                if self.ciphertext_read_buf.len() < TLS_RECORD_HEADER_SIZE {
                    return Ok(false);
                }
                if self.ciphertext_read_buf[0] != CONTENT_TYPE_HANDSHAKE || get_u16(
                    self.ciphertext_read_buf.as_slice(),
                    1,
                ) != 0x0303 {
                    return Err(
                        WireError::new(
                            ErrorKind::InvalidData,
                            "invalid REALITY ServerHello record header",
                        ),
                    );
                }
                let length = match checked_record_len(self.ciphertext_read_buf.as_slice()) {
                    Ok(length) => length,
                    Err(error) => {
                        return Err(error);
                    },
                };
                if self.ciphertext_read_buf.len() < length {
                    return Ok(false);
                }
                let record = split_front(&mut self.ciphertext_read_buf, length);
                assert(record@.subrange(5, length as int) =~= old(self)@.incoming.subrange(
                    5,
                    length as int,
                ));
                match negotiate(
                    &self.profile,
                    client_hello.as_slice(),
                    key_exchange,
                    *auth_key,
                    slice_subrange(record.as_slice(), TLS_RECORD_HEADER_SIZE, length),
                ) {
                    Err(error) => Err(error),
                    Ok(flight) => {
                        self.await_flight(flight);
                        Ok(true)
                    },
                }
            },
            _ => Err(handshake_state_error("ServerHello")),
        }
    }

    /// Process one record of the server's encrypted messages. Whether a record
    /// was taken.
    pub fn process_encrypted_handshake(&mut self) -> (result: Result<bool, WireError>)
        ensures
            final(self)@ == encrypted_handshake_step(old(self)@).1,
            match encrypted_handshake_step(old(self)@).0 {
                Ok(taken) => result == Ok::<bool, WireError>(taken),
                Err(fault) => result matches Err(error) && error@ == fault,
            },
            result matches Ok(taken) && taken ==> final(self)@.incoming.len() < old(
                self,
            )@.incoming.len(),
    {
        match &self.handshake_state {
            HandshakeState::ProcessingHandshake(flight) => {
                if self.ciphertext_read_buf.len() < TLS_RECORD_HEADER_SIZE {
                    return Ok(false);
                }
                if get_u16(self.ciphertext_read_buf.as_slice(), 1) != 0x0303 {
                    return Err(
                        WireError::new(
                            ErrorKind::InvalidData,
                            "invalid REALITY TLS record version",
                        ),
                    );
                }
                let length = match checked_record_len(self.ciphertext_read_buf.as_slice()) {
                    Ok(length) => length,
                    Err(error) => {
                        return Err(error);
                    },
                };
                if self.ciphertext_read_buf.len() < length {
                    return Ok(false);
                }
                let record_type = self.ciphertext_read_buf[0];
                if record_type == CONTENT_TYPE_CHANGE_CIPHER_SPEC {
                    let _ = split_front(&mut self.ciphertext_read_buf, length);
                    return Ok(true);
                }
                if record_type != CONTENT_TYPE_APPLICATION_DATA {
                    let mut message = text_of("Expected Application Data record, got 0x");
                    push_hex_byte(&mut message, record_type);
                    return Err(WireError { kind: ErrorKind::InvalidData, message });
                }
                let record = split_front(&mut self.ciphertext_read_buf, length);
                assert(record@.subrange(5, length as int) =~= old(self)@.incoming.subrange(
                    5,
                    length as int,
                ));
                let next = match flight.take_record(
                    slice_subrange(record.as_slice(), TLS_RECORD_HEADER_SIZE, length),
                ) {
                    Ok(next) => next,
                    Err(error) => {
                        return Err(error);
                    },
                };
                if !next.is_complete() {
                    self.await_flight(next);
                    return Ok(true);
                }
                if let Err(error) = next.verify() {
                    return Err(error);
                }
                match self.finish_handshake(&next) {
                    Ok(()) => Ok(true),
                    Err(error) => Err(error),
                }
            },
            _ => Err(handshake_state_error("server handshake messages")),
        }
    }

    /// Answer a verified flight and take up the application keys.
    fn finish_handshake(&mut self, flight: &ServerFlight) -> (result: Result<(), WireError>)
        ensures
            match client_finished(flight@) {
                Ok((records, _)) => result is Ok && final(self)@ == established(
                    old(self)@,
                    flight@,
                    records,
                ),
                Err(fault) => result matches Err(error) && error@ == fault && final(self)@ == old(
                    self,
                )@,
            },
    {
        let suite = flight.suite();
        let hash = flight.handshake_hash();
        let verify_data = compute_finished_verify_data(
            suite,
            flight.client_secret(),
            hash.as_slice(),
        );
        let finished = match construct_finished(verify_data.as_slice()) {
            Ok(finished) => finished,
            Err(error) => {
                return Err(error);
            },
        };
        let (key, iv) = match application_keys(suite, flight.client_secret()) {
            Ok(keys) => keys,
            Err(error) => {
                return Err(error);
            },
        };
        let mut encryptor = RecordEncryptor::new(&key, iv.as_slice(), 0);
        if let Err(error) = encryptor.encrypt_handshake(
            finished.as_slice(),
            &mut self.ciphertext_write_buf,
        ) {
            proof {
                reveal_with_fuel(sealed_prefix, 2);
                reveal_with_fuel(sealed_stream, 2);
            }
            return Err(error);
        }
        let (mut client_secret, mut server_secret) = derive_application_secrets(
            suite,
            flight.master_secret(),
            hash.as_slice(),
        );
        let writing = match application_keys(suite, client_secret.as_slice()) {
            Ok(keys) => keys,
            Err(error) => {
                return Err(error);
            },
        };
        let reading = match application_keys(suite, server_secret.as_slice()) {
            Ok(keys) => keys,
            Err(error) => {
                return Err(error);
            },
        };
        wipe(&mut client_secret);
        wipe(&mut server_secret);
        self.app_read = Some(reading);
        self.app_write = Some(writing);
        self.read_seq = 0;
        self.write_seq = 0;
        self.handshake_state = HandshakeState::Complete;
        Ok(())
    }

    /// Open the record of application data at the front, of `length` bytes with
    /// its header.
    fn open_front(&mut self, length: usize) -> (result: Result<(u8, Vec<u8>), WireError>)
        requires
            5 <= length <= old(self)@.incoming.len(),
            length <= 65540,
        ensures
            match old(self)@.reading {
                None => result matches Err(error) && error@ == state_fault(
                    "application traffic keys"@,
                ) && final(self)@ == old(self)@,
                Some(reading) => match opened_record(
                    reading,
                    old(self)@.incoming.subrange(5, length as int),
                    (length - 5) as u16,
                ) {
                    Err(fault) => result matches Err(error) && error@ == fault && final(self)@
                        == old(self)@,
                    Ok((content_type, content)) => result matches Ok((actual, bytes)) && actual
                        == content_type && bytes@ == content && final(self)@ == (ConnectionShape {
                        reading: Some(SealState { seq: reading.seq + 1, ..reading }),
                        ..old(self)@
                    }),
                },
            },
    {
        match &self.app_read {
            None => Err(handshake_state_error("application traffic keys")),
            Some((key, iv)) => {
                let mut decryptor = RecordDecryptor::new(key, iv.as_slice(), self.read_seq);
                let result = decryptor.decrypt_record(
                    slice_subrange(
                        self.ciphertext_read_buf.as_slice(),
                        TLS_RECORD_HEADER_SIZE,
                        length,
                    ),
                    (length - TLS_RECORD_HEADER_SIZE) as u16,
                );
                self.read_seq = decryptor.sequence();
                result
            },
        }
    }

    /// Decrypt every whole record of application data.
    pub fn process_application_data(&mut self) -> (result: Result<(), WireError>)
        ensures
            final(self)@ == application_step(old(self)@).1,
            match application_step(old(self)@).0 {
                Ok(_) => result is Ok,
                Err(fault) => result matches Err(error) && error@ == fault,
            },
    {
        if self.app_read.is_none() {
            return Err(handshake_state_error("application traffic keys"));
        }
        while self.ciphertext_read_buf.len() >= TLS_RECORD_HEADER_SIZE
            invariant
                self@.reading is Some,
                application_step(self@) == application_step(old(self)@),
            decreases self@.incoming.len(),
        {
            let ghost before = self@;
            let length = match checked_record_len(self.ciphertext_read_buf.as_slice()) {
                Ok(length) => length,
                Err(error) => {
                    return Err(error);
                },
            };
            if self.ciphertext_read_buf.len() < length {
                return Ok(());
            }
            let (content_type, content) = match self.open_front(length) {
                Ok(opened) => opened,
                Err(error) => {
                    return Err(error);
                },
            };
            if content_type == CONTENT_TYPE_APPLICATION_DATA {
                push_bytes(&mut self.plaintext_read_buf, content.as_slice());
            } else if content_type == CONTENT_TYPE_ALERT {
                if content.len() >= 2 {
                    if content[1] == ALERT_DESC_CLOSE_NOTIFY {
                        self.received_close_notify = true;
                        return Ok(());
                    } else if content[0] != ALERT_LEVEL_WARNING {
                        let mut message = text_of("received fatal alert: ");
                        push_decimal(&mut message, content[1] as u64);
                        return Err(WireError { kind: ErrorKind::ConnectionAborted, message });
                    }
                }
            } else {
                return Err(
                    WireError::new(
                        ErrorKind::InvalidData,
                        "REALITY record carries an unexpected content type",
                    ),
                );
            }
            let _ = split_front(&mut self.ciphertext_read_buf, length);
        }
        Ok(())
    }

    /// Take plaintext that came in, at most `limit` bytes. Where there is none,
    /// a closed connection gives nothing and an open one asks to wait.
    pub fn read_plaintext(&mut self, limit: usize) -> (result: Result<Vec<u8>, WireError>)
        ensures
            if old(self)@.received.len() > 0 {
                result matches Ok(bytes) && {
                    let count = if limit < old(self)@.received.len() {
                        limit as int
                    } else {
                        old(self)@.received.len() as int
                    };
                    &&& old(self)@.received.len() <= usize::MAX
                    &&& bytes@ == old(self)@.received.subrange(0, count)
                    &&& final(self)@ == (ConnectionShape {
                        received: old(self)@.received.subrange(
                            count,
                            old(self)@.received.len() as int,
                        ),
                        ..old(self)@
                    })
                }
            } else if old(self)@.closed {
                result matches Ok(bytes) && bytes@.len() == 0 && final(self)@ == old(self)@
            } else {
                result matches Err(error) && error@ == (
                    ErrorKind::WouldBlock,
                    "no plaintext is available"@,
                ) && final(self)@ == old(self)@
            },
    {
        if self.plaintext_read_buf.len() == 0 {
            if self.received_close_notify {
                return Ok(Vec::new());
            }
            return Err(WireError::new(ErrorKind::WouldBlock, "no plaintext is available"));
        }
        let count: usize = if limit < self.plaintext_read_buf.len() {
            limit
        } else {
            self.plaintext_read_buf.len()
        };
        Ok(split_front(&mut self.plaintext_read_buf, count))
    }

    /// Queue plaintext to be encrypted.
    pub fn write_plaintext(&mut self, data: &[u8])
        ensures
            final(self)@ == (ConnectionShape {
                pending: old(self)@.pending + data@,
                ..old(self)@
            }),
    {
        push_bytes(&mut self.plaintext_write_buf, data);
    }

    fn flush_plaintext(&mut self) -> (result: Result<(), WireError>)
        ensures
            final(self)@ == flushed(old(self)@).1,
            match flushed(old(self)@).0 {
                Ok(_) => result is Ok,
                Err(fault) => result matches Err(error) && error@ == fault,
            },
    {
        if self.is_handshaking() || self.plaintext_write_buf.len() == 0 {
            return Ok(());
        }
        match &self.app_write {
            None => Err(WireError::new(ErrorKind::InvalidData, "Application keys not available")),
            Some((key, iv)) => {
                let mut encryptor = RecordEncryptor::new(key, iv.as_slice(), self.write_seq);
                let result = encryptor.encrypt_app_data(
                    &mut self.plaintext_write_buf,
                    &mut self.ciphertext_write_buf,
                );
                self.write_seq = encryptor.sequence();
                assert(result is Ok ==> self@.pending =~= Seq::<u8>::empty());
                result
            },
        }
    }

    /// Give out ciphertext that has to go out, at most `room` bytes. Pending
    /// plaintext is encrypted first, once the handshake is complete.
    pub fn write_tls(&mut self, room: usize) -> (result: Result<Vec<u8>, WireError>)
        ensures
            match flushed(old(self)@) {
                (Err(fault), next) => result matches Err(error) && error@ == fault && final(self)@
                    == next,
                (Ok(_), next) => result matches Ok(bytes) && {
                    let count = if room < next.outgoing.len() {
                        room as int
                    } else {
                        next.outgoing.len() as int
                    };
                    &&& next.outgoing.len() <= usize::MAX
                    &&& bytes@ == next.outgoing.subrange(0, count)
                    &&& final(self)@ == (ConnectionShape {
                        outgoing: next.outgoing.subrange(count, next.outgoing.len() as int),
                        ..next
                    })
                },
            },
    {
        if let Err(error) = self.flush_plaintext() {
            return Err(error);
        }
        let count: usize = if room < self.ciphertext_write_buf.len() {
            room
        } else {
            self.ciphertext_write_buf.len()
        };
        Ok(split_front(&mut self.ciphertext_write_buf, count))
    }

    /// Whether anything has to go out.
    pub fn wants_write(&self) -> (wants: bool)
        ensures
            wants == (self@.outgoing.len() > 0 || self@.pending.len() > 0),
    {
        self.ciphertext_write_buf.len() > 0 || self.plaintext_write_buf.len() > 0
    }

    /// Whether the handshake is still in progress.
    pub fn is_handshaking(&self) -> (handshaking: bool)
        ensures
            handshaking == (self@.phase !is Complete),
    {
        match &self.handshake_state {
            HandshakeState::Complete => false,
            _ => true,
        }
    }

    /// Whether more ciphertext is wanted: never after a close or a failure,
    /// always during the handshake, and else when no plaintext is left.
    pub fn wants_read(&self) -> (wants: bool)
        ensures
            wants == (!self@.closed && self@.failed is None && (self@.phase !is Complete
                || self@.received.len() == 0)),
    {
        if self.received_close_notify {
            return false;
        }
        if self.fatal_error.is_some() {
            return false;
        }
        if self.is_handshaking() {
            return true;
        }
        self.plaintext_read_buf.len() == 0
    }

    /// Queue a close notification, once the handshake is complete.
    pub fn send_close_notify(&mut self)
        ensures
            final(self)@ == closing(old(self)@),
    {
        if self.is_handshaking() {
            return ;
        }
        match &self.app_write {
            None => {},
            Some((key, iv)) => {
                let mut encryptor = RecordEncryptor::new(key, iv.as_slice(), self.write_seq);
                let _ = encryptor.encrypt_close_notify(&mut self.ciphertext_write_buf);
                self.write_seq = encryptor.sequence();
            },
        }
    }
}

/// The connection with more ciphertext behind what it holds.
pub open spec fn fed(connection: ConnectionShape, more: Seq<u8>) -> ConnectionShape {
    ConnectionShape { incoming: connection.incoming + more, ..connection }
}

proof fn lemma_front_stays(connection: ConnectionShape, more: Seq<u8>, length: int)
    requires
        5 <= length <= connection.incoming.len(),
    ensures
        fed(connection, more).incoming.subrange(5, length) == connection.incoming.subrange(
            5,
            length,
        ),
        consumed(fed(connection, more), length) == fed(consumed(connection, length), more),
{
    let whole = fed(connection, more).incoming;
    assert(whole.subrange(5, length) =~= connection.incoming.subrange(5, length));
    assert(whole.subrange(length, whole.len() as int) =~= connection.incoming.subrange(
        length,
        connection.incoming.len() as int,
    ) + more);
}

proof fn lemma_application_cut(connection: ConnectionShape, more: Seq<u8>)
    requires
        application_step(connection).0 is Ok,
        !application_step(connection).1.closed,
    ensures
        application_step(fed(connection, more)) == application_step(
            fed(application_step(connection).1, more),
        ),
    decreases connection.incoming.len(),
{
    let incoming = connection.incoming;
    let whole = fed(connection, more);
    let reading = connection.reading->0;
    if incoming.len() >= TLS_RECORD_HEADER_SIZE {
        assert(record_length(whole.incoming) == record_length(incoming));
        let length = record_length(incoming)->Ok_0;
        if incoming.len() >= length {
            lemma_front_stays(connection, more, length);
            let (content_type, content) = opened_record(
                reading,
                incoming.subrange(5, length),
                (length - 5) as u16,
            )->Ok_0;
            let counted = ConnectionShape {
                reading: Some(SealState { seq: reading.seq + 1, ..reading }),
                ..connection
            };
            let ignored = consumed(counted, length);
            let extended = ConnectionShape {
                received: connection.received + content,
                ..consumed(counted, length)
            };
            lemma_front_stays(counted, more, length);
            if content_type == CONTENT_TYPE_APPLICATION_DATA {
                lemma_application_cut(extended, more);
                assert(application_step(whole) == application_step(fed(extended, more)));
            } else {
                lemma_application_cut(ignored, more);
                assert(application_step(whole) == application_step(fed(ignored, more)));
            }
        }
    }
}

/// How the ciphertext is cut into reads does not matter: what a connection
/// comes to after one part and then the rest is what it comes to after the
/// whole, as long as the first part brings neither a fault nor the close.
pub proof fn reads_may_be_cut_anywhere(connection: ConnectionShape, more: Seq<u8>)
    requires
        advanced(connection).0 is Ok,
        !advanced(connection).1.closed,
    ensures
        advanced(fed(connection, more)) == advanced(fed(advanced(connection).1, more)),
    decreases connection.incoming.len(),
{
    let incoming = connection.incoming;
    let whole = fed(connection, more);
    match connection.phase {
        PhaseShape::Complete => {
            lemma_application_cut(connection, more);
            lemma_application_keeps_phase(connection);
            lemma_application_keeps_phase(whole);
        },
        PhaseShape::AwaitingServerHello { .. } => {
            if server_hello_step(connection).0 == Ok::<bool, Fault>(true) {
                lemma_front_stays(connection, more, record_length(incoming)->Ok_0);
                assert(record_length(whole.incoming) == record_length(incoming));
                assert(server_hello_step(whole) == (
                    Ok::<bool, Fault>(true),
                    fed(server_hello_step(connection).1, more),
                ));
                reads_may_be_cut_anywhere(server_hello_step(connection).1, more);
            }
        },
        PhaseShape::ProcessingHandshake(_) => {
            if encrypted_handshake_step(connection).0 == Ok::<bool, Fault>(true) {
                lemma_front_stays(connection, more, record_length(incoming)->Ok_0);
                assert(record_length(whole.incoming) == record_length(incoming));
                assert(encrypted_handshake_step(whole) == (
                    Ok::<bool, Fault>(true),
                    fed(encrypted_handshake_step(connection).1, more),
                ));
                reads_may_be_cut_anywhere(encrypted_handshake_step(connection).1, more);
            }
        },
    }
}

pub(crate) proof fn lemma_application_keeps_phase(connection: ConnectionShape)
    ensures
        application_step(connection).1.phase == connection.phase,
        application_step(connection).1.failed == connection.failed,
    decreases connection.incoming.len(),
{
    let incoming = connection.incoming;
    if let Some(reading) = connection.reading {
        if incoming.len() >= TLS_RECORD_HEADER_SIZE {
            if let Ok(length) = record_length(incoming) {
                if incoming.len() >= length {
                    if let Ok((content_type, content)) = opened_record(
                        reading,
                        incoming.subrange(5, length),
                        (length - 5) as u16,
                    ) {
                        let counted = ConnectionShape {
                            reading: Some(SealState { seq: reading.seq + 1, ..reading }),
                            ..connection
                        };
                        lemma_application_keeps_phase(consumed(counted, length));
                        lemma_application_keeps_phase(
                            ConnectionShape {
                                received: connection.received + content,
                                ..consumed(counted, length)
                            },
                        );
                    }
                }
            }
        }
    }
}

/// A failure that ends a connection is final: every later attempt fails with
/// the same kind and changes nothing.
pub proof fn a_failed_connection_stays_failed(connection: ConnectionShape)
    requires
        processed(connection).0 matches Err(fault) && ends_connection(fault.0),
    ensures
        ({
            let after = processed(connection).1;
            let kind = (processed(connection).0->Err_0).0;
            &&& processed(after).0 == Err::<(), Fault>((kind, "connection previously failed"@))
            &&& processed(after).1 == after
        }),
{
}

/// What came before a close is kept, and nothing is processed after it.
pub proof fn a_closed_connection_takes_nothing_more(connection: ConnectionShape, more: Seq<u8>)
    requires
        connection.closed,
        connection.failed is None,
    ensures
        processed(fed(connection, more)) == (Ok::<(), Fault>(()), fed(connection, more)),
{
}

} // verus!
