//! What holds of a connection over all its steps: who gets through its handshake,
//! and what becomes of the data that a server seals.
use crate::error::Fault;
use crate::octets::read16;
use crate::reality::client_connection::{
    advanced, application_step, encrypted_handshake_step, fed, lemma_application_keeps_phase,
    opened_connection, processed, server_hello_step, ConnectionShape, PhaseShape,
};
use crate::reality::common::CONTENT_TYPE_APPLICATION_DATA;
use crate::reality::handshake::{
    after_content, after_message, after_messages, flight_seal, flight_verdict, next_message_end,
    proven_key, record_length, FlightShape,
};
use crate::reality::hello_profile::ProfileShape;
use crate::reality::key_exchange::ExchangeShape;
use crate::reality::prepared_hello::PreparedShape;
use crate::reality::records::{opened_handshake, opened_record, opened_stream, SealState};
use vstd::prelude::*;

verus! {

/// Whether the key that a flight goes by was proven by a message in it, under the
/// flight's authentication key.
pub open spec fn vouched(flight: FlightShape) -> bool {
    flight.public_key matches Some(key) ==> exists|start: int, end: int|
        0 <= start <= end <= flight.plaintext.len() && proven_key(
            #[trigger] flight.plaintext.subrange(start, end),
            flight.auth_key,
        ) == Ok::<Seq<u8>, Fault>(key)
}

/// Whether a connection is on its way to a server that holds the authentication
/// key, or has met one. Before the handshake is complete nothing was delivered
/// and nothing can be read. Once it is, some flight bore a certificate bound to
/// the key, a signature of that certificate's key over the transcript, and a
/// Finished message over both.
pub open spec fn keeps_to(connection: ConnectionShape, auth_key: Seq<u8>) -> bool {
    match connection.phase {
        PhaseShape::AwaitingServerHello { auth_key: own, .. } => own == auth_key
            && connection.received.len() == 0 && connection.reading is None,
        PhaseShape::ProcessingHandshake(flight) => flight.auth_key == auth_key && vouched(flight)
            && connection.received.len() == 0 && connection.reading is None,
        PhaseShape::Complete => exists|flight: FlightShape|
            flight.auth_key == auth_key && vouched(flight) && flight.public_key is Some
                && (#[trigger] flight_verdict(flight)) is Ok,
    }
}

proof fn lemma_more_vouched(flight: FlightShape, content: Seq<u8>)
    requires
        vouched(flight),
    ensures
        vouched(
            FlightShape { plaintext: flight.plaintext + content, seq: flight.seq + 1, ..flight },
        ),
{
    if let Some(key) = flight.public_key {
        let (start, end) = choose|start: int, end: int|
            0 <= start <= end <= flight.plaintext.len() && proven_key(
                #[trigger] flight.plaintext.subrange(start, end),
                flight.auth_key,
            ) == Ok::<Seq<u8>, Fault>(key);
        assert((flight.plaintext + content).subrange(start, end) =~= flight.plaintext.subrange(
            start,
            end,
        ));
    }
}

proof fn lemma_messages_vouched(flight: FlightShape)
    requires
        vouched(flight),
    ensures
        after_messages(flight) matches Ok(next) ==> vouched(next) && next.auth_key
            == flight.auth_key,
    decreases flight.plaintext.len() - flight.offset,
{
    if let Some(end) = next_message_end(flight) {
        if let Ok(next) = after_message(flight, end) {
            assert(next.plaintext == flight.plaintext && next.offset == end);
            assert(vouched(next)) by {
                if next.public_key != flight.public_key {
                    let message = flight.plaintext.subrange(flight.offset, end);
                    assert(proven_key(message, flight.auth_key) == Ok::<Seq<u8>, Fault>(
                        next.public_key->0,
                    ));
                    assert(next.plaintext.subrange(flight.offset, end) == message);
                }
            }
            lemma_messages_vouched(next);
        }
    }
}

/// Whether a flight stays vouched, under its authentication key, with more
/// content.
spec fn content_keeps(flight: FlightShape, content: Seq<u8>) -> bool {
    after_content(flight, content) matches Ok(next) ==> vouched(next) && next.auth_key
        == flight.auth_key
}

proof fn lemma_flight_keeps(connection: ConnectionShape, auth_key: Seq<u8>)
    requires
        connection.phase is ProcessingHandshake,
        keeps_to(connection, auth_key),
    ensures
        keeps_to(encrypted_handshake_step(connection).1, auth_key),
{
    let flight = connection.phase->ProcessingHandshake_0;
    assert forall|content: Seq<u8>| #[trigger] content_keeps(flight, content) by {
        lemma_more_vouched(flight, content);
        lemma_messages_vouched(
            FlightShape { plaintext: flight.plaintext + content, seq: flight.seq + 1, ..flight },
        );
    }
    let incoming = connection.incoming;
    if let Ok(length) = record_length(incoming) {
        let body = incoming.subrange(5, length);
        if let Ok(content) = opened_handshake(flight_seal(flight), body, body.len() as u16) {
            assert(content_keeps(flight, content));
        }
    }
}

proof fn lemma_advanced_keeps(connection: ConnectionShape, auth_key: Seq<u8>)
    requires
        keeps_to(connection, auth_key),
    ensures
        keeps_to(advanced(connection).1, auth_key),
    decreases connection.incoming.len(),
{
    match connection.phase {
        PhaseShape::Complete => {
            lemma_application_keeps_phase(connection);
        },
        PhaseShape::AwaitingServerHello { .. } => {
            let (result, next) = server_hello_step(connection);
            assert(keeps_to(next, auth_key));
            if next.incoming.len() < connection.incoming.len() {
                lemma_advanced_keeps(next, auth_key);
            }
        },
        PhaseShape::ProcessingHandshake(_) => {
            lemma_flight_keeps(connection, auth_key);
            let (result, next) = encrypted_handshake_step(connection);
            if next.incoming.len() < connection.incoming.len() {
                lemma_advanced_keeps(next, auth_key);
            }
        },
    }
}

/// Only a server that holds the authentication key gets through. A connection
/// starts out keeping to the key of its hello, whatever ciphertext comes in and
/// however it is processed it goes on keeping to it, and so it completes only on
/// a flight that proves the key, and delivers nothing before.
pub proof fn only_an_authenticated_server_gets_through(
    profile: ProfileShape,
    exchange: ExchangeShape,
    hello: PreparedShape,
    connection: ConnectionShape,
    auth_key: Seq<u8>,
    more: Seq<u8>,
)
    requires
        keeps_to(connection, auth_key),
    ensures
        keeps_to(opened_connection(profile, exchange, hello), hello.auth_key),
        keeps_to(fed(connection, more), auth_key),
        keeps_to(processed(connection).1, auth_key),
{
    lemma_advanced_keeps(connection, auth_key);
}

proof fn lemma_delivered(
    connection: ConnectionShape,
    state: SealState,
    text: Seq<u8>,
    count: nat,
)
    requires
        connection.reading == Some(state),
        opened_stream(state, connection.incoming, CONTENT_TYPE_APPLICATION_DATA) == Some(
            (text, count),
        ),
    ensures
        application_step(connection) == (
            Ok::<(), Fault>(()),
            ConnectionShape {
                incoming: Seq::empty(),
                received: connection.received + text,
                reading: Some(SealState { seq: state.seq + count, ..state }),
                ..connection
            },
        ),
    decreases connection.incoming.len(),
{
    let incoming = connection.incoming;
    if incoming.len() == 0 {
        assert(incoming =~= Seq::<u8>::empty());
        assert(connection.received + text =~= connection.received);
    } else {
        let end = 5 + read16(incoming, 3);
        let (_, content) = opened_record(
            state,
            incoming.subrange(5, end),
            read16(incoming, 3) as u16,
        )->Ok_0;
        let next = SealState { seq: state.seq + 1, ..state };
        let rest = incoming.subrange(end, incoming.len() as int);
        let (more, further) = opened_stream(next, rest, CONTENT_TYPE_APPLICATION_DATA)->0;
        let after = ConnectionShape {
            received: connection.received + content,
            incoming: rest,
            reading: Some(next),
            ..connection
        };
        lemma_delivered(after, next, more, further);
        assert(connection.received + content + more =~= connection.received + text);
    }
}

/// What a server seals is delivered, whole and in order: the records that open to
/// a text under the keys of a connection add that text to what it received, and
/// leave nothing behind.
pub proof fn sealed_data_is_delivered(
    connection: ConnectionShape,
    state: SealState,
    records: Seq<u8>,
    text: Seq<u8>,
    count: nat,
)
    requires
        connection.phase is Complete,
        !connection.closed,
        connection.failed is None,
        connection.incoming.len() == 0,
        connection.reading == Some(state),
        opened_stream(state, records, CONTENT_TYPE_APPLICATION_DATA) == Some((text, count)),
    ensures
        processed(fed(connection, records)) == (
            Ok::<(), Fault>(()),
            ConnectionShape {
                received: connection.received + text,
                reading: Some(SealState { seq: state.seq + count, ..state }),
                ..connection
            },
        ),
{
    assert(connection.incoming + records =~= records);
    assert(connection.incoming =~= Seq::<u8>::empty());
    lemma_delivered(fed(connection, records), state, text, count);
}

} // verus!
