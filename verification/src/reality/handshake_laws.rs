//! A client and a server that agree on their secrets bring the handshake to its
//! end.
use crate::crypto::x25519_public_of;
use crate::error::Fault;
use crate::octets::{be16, be24, read16, read24};
use crate::reality::cipher_suite::suite_ids_are_inverse;
use crate::reality::client_connection::{
    advanced, client_finished, encrypted_handshake_step, fed, flight_after, negotiated, processed,
    server_hello_step, ConnectionShape, PhaseShape,
};
use crate::reality::common::{
    CONTENT_TYPE_APPLICATION_DATA, CONTENT_TYPE_HANDSHAKE, HANDSHAKE_TYPE_SERVER_HELLO,
};
use crate::reality::handshake::{
    after_content, after_message, after_messages, flight_seal, flight_verdict, next_message_end,
    record_length, retry_random, server_hello_verdict, FlightShape,
};
use crate::reality::hello_profile::negotiable_suites;
use crate::reality::key_exchange::{completed, ExchangeShape};
use crate::reality::messages::{handshake_message, server_hello_body, server_hello_extensions};
use crate::reality::records::{opened_record, opened_stream, sealed_header, SealState};
use crate::reality::server_hello::{server_hello_reads_back, ShareShape};
use crate::reality::testkit::{answered, completes, joined, parsed_hello, taken_in, ParsedShape};
use vstd::prelude::*;

verus! {

/// A flight with more bytes behind its plaintext.
pub open spec fn extended(flight: FlightShape, more: Seq<u8>) -> FlightShape {
    FlightShape { plaintext: flight.plaintext + more, ..flight }
}

/// A flight whose next record has another number.
pub open spec fn renumbered(flight: FlightShape, seq: int) -> FlightShape {
    FlightShape { seq, ..flight }
}

proof fn lemma_message_extended(flight: FlightShape, more: Seq<u8>, end: int)
    requires
        0 <= flight.offset,
        next_message_end(flight) == Some(end),
    ensures
        next_message_end(extended(flight, more)) == Some(end),
        flight.offset + 4 <= end <= flight.plaintext.len(),
        after_message(extended(flight, more), end) == match after_message(flight, end) {
            Ok(next) => Ok::<FlightShape, Fault>(extended(next, more)),
            Err(fault) => Err(fault),
        },
{
    let whole = extended(flight, more);
    assert(read24(whole.plaintext, flight.offset + 1) == read24(
        flight.plaintext,
        flight.offset + 1,
    ));
    assert(whole.plaintext.subrange(flight.offset, end) =~= flight.plaintext.subrange(
        flight.offset,
        end,
    ));
}

/// How the plaintext of a flight is cut does not matter: what its front comes to,
/// with the rest behind it, is what the whole comes to.
pub proof fn a_flight_reads_alike_however_it_is_cut(flight: FlightShape, more: Seq<u8>)
    requires
        0 <= flight.offset,
    ensures
        after_messages(extended(flight, more)) == match after_messages(flight) {
            Ok(next) => after_messages(extended(next, more)),
            Err(fault) => Err(fault),
        },
    decreases flight.plaintext.len() - flight.offset,
{
    if let Some(end) = next_message_end(flight) {
        lemma_message_extended(flight, more, end);
        if let Ok(next) = after_message(flight, end) {
            a_flight_reads_alike_however_it_is_cut(next, more);
        }
    }
}

proof fn lemma_renumbered(flight: FlightShape, seq: int)
    requires
        0 <= flight.offset,
    ensures
        after_messages(renumbered(flight, seq)) == match after_messages(flight) {
            Ok(next) => Ok::<FlightShape, Fault>(renumbered(next, seq)),
            Err(fault) => Err(fault),
        },
    decreases flight.plaintext.len() - flight.offset,
{
    if let Some(end) = next_message_end(flight) {
        assert(next_message_end(renumbered(flight, seq)) == Some(end));
        if let Ok(next) = after_message(flight, end) {
            assert(after_message(renumbered(flight, seq), end) == Ok::<FlightShape, Fault>(
                renumbered(next, seq),
            ));
            lemma_renumbered(next, seq);
        }
    }
}

proof fn lemma_messages_keep(flight: FlightShape)
    requires
        0 <= flight.offset <= flight.plaintext.len(),
    ensures
        after_messages(flight) matches Ok(next) ==> {
            &&& next.plaintext == flight.plaintext
            &&& next.seq == flight.seq
            &&& next.suite == flight.suite
            &&& next.server_secret == flight.server_secret
            &&& 0 <= next.offset <= next.plaintext.len()
            &&& next_message_end(next) is None
        },
    decreases flight.plaintext.len() - flight.offset,
{
    if let Some(end) = next_message_end(flight) {
        if let Ok(next) = after_message(flight, end) {
            lemma_messages_keep(next);
        }
    }
}

proof fn lemma_joined(flight: FlightShape, messages: Seq<Seq<u8>>, n: nat)
    requires
        0 <= flight.offset <= flight.plaintext.len(),
        taken_in(flight, messages, n) is Ok,
        n <= messages.len(),
        after_messages(flight) == Ok::<FlightShape, Fault>(flight),
    ensures
        ({
            let done = taken_in(flight, messages, n)->Ok_0;
            &&& after_messages(extended(flight, joined(messages, n))) == Ok::<FlightShape, Fault>(
                renumbered(done, flight.seq),
            )
            &&& done.plaintext == flight.plaintext + joined(messages, n)
            &&& 0 <= done.offset <= done.plaintext.len()
        }),
    decreases n,
{
    if n == 0 {
        assert(flight.plaintext + Seq::<u8>::empty() =~= flight.plaintext);
    } else {
        let m = (n - 1) as nat;
        lemma_joined(flight, messages, m);
        let before = taken_in(flight, messages, m)->Ok_0;
        let message = messages[n - 1];
        let front = extended(flight, joined(messages, m));
        a_flight_reads_alike_however_it_is_cut(front, message);
        assert(extended(front, message).plaintext =~= extended(
            flight,
            joined(messages, n),
        ).plaintext);
        let grown = FlightShape {
            plaintext: before.plaintext + message,
            seq: before.seq + 1,
            ..before
        };
        lemma_renumbered(grown, flight.seq);
        lemma_messages_keep(grown);
        assert(renumbered(grown, flight.seq) == extended(renumbered(before, flight.seq), message));
    }
}

/// Whether a flight, once its whole text has come in, is accepted and can be
/// answered.
spec fn acceptable(flight: FlightShape, text: Seq<u8>) -> bool {
    after_messages(extended(flight, text)) matches Ok(done) && done.found == 4 && flight_verdict(
        done,
    ) is Ok && client_finished(done) is Ok
}

#[verifier::spinoff_prover]
#[verifier::rlimit(60)]
proof fn lemma_flight_completes(
    connection: ConnectionShape,
    flight: FlightShape,
    text: Seq<u8>,
    count: nat,
)
    requires
        connection.phase == PhaseShape::ProcessingHandshake(flight),
        0 <= flight.offset <= flight.plaintext.len(),
        flight.found < 4,
        text.len() > 0,
        opened_stream(flight_seal(flight), connection.incoming, CONTENT_TYPE_HANDSHAKE) == Some(
            (text, count),
        ),
        acceptable(flight, text),
    ensures
        advanced(connection).0 is Ok,
        advanced(connection).1.phase is Complete,
        advanced(connection).1.incoming.len() == 0,
        advanced(connection).1.failed == connection.failed,
        advanced(connection).1.closed == connection.closed,
        advanced(connection).1.received == connection.received,
    decreases connection.incoming.len(),
{
    let incoming = connection.incoming;
    let state = flight_seal(flight);
    let declared = read16(incoming, 3);
    let end = 5 + declared;
    let body = incoming.subrange(5, end);
    let rest = incoming.subrange(end, incoming.len() as int);
    let (_, content) = opened_record(state, body, declared as u16)->Ok_0;
    let later = SealState { seq: state.seq + 1, ..state };
    let (more, further) = opened_stream(later, rest, CONTENT_TYPE_HANDSHAKE)->0;
    let header = sealed_header(declared as u16);
    assert(incoming.subrange(0, 5) == header);
    assert(incoming[0] == incoming.subrange(0, 5)[0]);
    assert(incoming[1] == incoming.subrange(0, 5)[1]);
    assert(incoming[2] == incoming.subrange(0, 5)[2]);
    assert(incoming[0] == CONTENT_TYPE_APPLICATION_DATA);
    assert(read16(incoming, 1) == 0x0303);
    assert(record_length(incoming) == Ok::<int, Fault>(end));
    assert(body.len() == declared);
    let fed_flight = FlightShape {
        plaintext: flight.plaintext + content,
        seq: flight.seq + 1,
        ..flight
    };
    assert(text == content + more);
    let front = extended(flight, content);
    a_flight_reads_alike_however_it_is_cut(front, more);
    assert(extended(front, more).plaintext =~= extended(flight, text).plaintext);
    assert(after_messages(front) is Ok);
    let settled = after_messages(front)->Ok_0;
    lemma_renumbered(front, flight.seq + 1);
    assert(renumbered(front, flight.seq + 1) == fed_flight);
    let next = renumbered(settled, flight.seq + 1);
    assert(after_content(flight, content) == Ok::<FlightShape, Fault>(next));
    lemma_messages_keep(front);
    let done = after_messages(extended(flight, text))->Ok_0;
    lemma_messages_keep(extended(flight, text));
    if rest.len() == 0 {
        assert(more.len() == 0);
        assert(extended(settled, more).plaintext =~= settled.plaintext);
        assert(done == settled);
        assert(flight_verdict(next) == flight_verdict(settled));
        assert(client_finished(next) == client_finished(settled));
        let after = encrypted_handshake_step(connection).1;
        assert(after.phase is Complete);
        assert(after.incoming =~= rest);
    } else {
        assert(more.len() > 0);
        if settled.found >= 4 {
            assert(next_message_end(extended(settled, more)) is None);
            assert(done == extended(settled, more));
            assert(done.offset < done.plaintext.len());
            assert(false);
        }
        let after = ConnectionShape {
            phase: PhaseShape::ProcessingHandshake(next),
            incoming: rest,
            ..connection
        };
        assert(encrypted_handshake_step(connection) == (Ok::<bool, Fault>(true), after));
        assert(flight_seal(next) == later);
        lemma_renumbered(extended(settled, more), flight.seq + 1);
        assert(extended(next, more) == renumbered(extended(settled, more), flight.seq + 1));
        let finished = after_messages(extended(next, more))->Ok_0;
        assert(finished == renumbered(done, flight.seq + 1));
        assert(flight_verdict(finished) == flight_verdict(done));
        assert(client_finished(finished) == client_finished(done));
        lemma_flight_completes(after, next, more, further);
    }
}

/// The record that a ServerHello goes out in.
pub open spec fn hello_record(hello: Seq<u8>) -> Seq<u8> {
    seq![CONTENT_TYPE_HANDSHAKE, 0x03u8, 0x03u8] + be16((hello.len() % 65536) as u16) + hello
}

proof fn lemma_hello_accepted(
    client_hello: Seq<u8>,
    random: Seq<u8>,
    session_id: Seq<u8>,
    cipher_suite: u16,
    key_share: Seq<u8>,
)
    requires
        client_hello.len() >= 71,
        random.len() == 32,
        random != retry_random(),
        session_id == client_hello.subrange(39, 71),
        key_share.len() == 32,
    ensures
        ({
            let hello = handshake_message(
                HANDSHAKE_TYPE_SERVER_HELLO,
                server_hello_body(random, session_id, cipher_suite, key_share),
            );
            &&& server_hello_verdict(hello, client_hello) is Ok
            &&& hello.len() == 122
        }),
{
    server_hello_reads_back(random, session_id, cipher_suite, key_share);
    let body = server_hello_body(random, session_id, cipher_suite, key_share);
    let hello = handshake_message(HANDSHAKE_TYPE_SERVER_HELLO, body);
    assert(server_hello_extensions(key_share).len() == 46);
    assert(body.len() == 118);
    assert(be24(118).len() == 3);
    let head = seq![2u8] + be24(118);
    assert(hello =~= head + body);
    assert(head[1] == 0 && head[2] == 0 && head[3] == 118);
    assert(hello[0] == head[0] && hello[1] == head[1] && hello[2] == head[2] && hello[3]
        == head[3]);
    assert(hello[4] == body[0] && hello[5] == body[1]);
    assert(hello[38] == body[34]);
    assert(body[34] == 32u8);
    assert(hello.subrange(39, 71) =~= session_id);
}

proof fn lemma_negotiated(
    connection: ConnectionShape,
    client_hello: Seq<u8>,
    exchange: ExchangeShape,
    parsed: ParsedShape,
    server_private: Seq<u8>,
    server_random: Seq<u8>,
    private: Seq<u8>,
    hello: Seq<u8>,
    secret: Seq<u8>,
)
    requires
        parsed_hello(client_hello, server_private) == Ok::<ParsedShape, Fault>(parsed),
        negotiable_suites(
            connection.profile.cipher_suites,
            connection.profile.cipher_suites.len(),
        ).contains(parsed.cipher_suite),
        server_random.len() == 32,
        server_random != retry_random(),
        answered(parsed, server_random, private) == Ok::<(Seq<u8>, Seq<u8>), Fault>(
            (hello, secret),
        ),
        completed(exchange, ShareShape::X25519(x25519_public_of(private)->Ok_0)) == Ok::<
            Seq<u8>,
            Fault,
        >(secret),
    ensures
        negotiated(connection.profile, client_hello, exchange, parsed.auth_key, hello) == Ok::<
            FlightShape,
            Fault,
        >(flight_after(parsed.cipher_suite, secret, client_hello + hello, parsed.auth_key)),
        hello.len() == 122,
{
    let public = x25519_public_of(private)->Ok_0;
    let id = parsed.cipher_suite.spec_id();
    lemma_hello_accepted(client_hello, server_random, parsed.session_id, id, public);
    server_hello_reads_back(server_random, parsed.session_id, id, public);
    suite_ids_are_inverse(parsed.cipher_suite, id);
}

proof fn lemma_hello_taken(
    connection: ConnectionShape,
    client_hello: Seq<u8>,
    exchange: ExchangeShape,
    auth_key: Seq<u8>,
    hello: Seq<u8>,
    records: Seq<u8>,
    flight: FlightShape,
)
    requires
        connection.phase == (PhaseShape::AwaitingServerHello {
            client_hello,
            key_exchange: exchange,
            auth_key,
        }),
        connection.incoming.len() == 0,
        hello.len() == 122,
        negotiated(connection.profile, client_hello, exchange, auth_key, hello) == Ok::<
            FlightShape,
            Fault,
        >(flight),
    ensures
        server_hello_step(fed(connection, hello_record(hello) + records)) == (
            Ok::<bool, Fault>(true),
            ConnectionShape {
                phase: PhaseShape::ProcessingHandshake(flight),
                incoming: records,
                ..connection
            },
        ),
{
    let incoming = fed(connection, hello_record(hello) + records).incoming;
    let front = hello_record(hello);
    assert(incoming =~= front + records);
    assert(be16(122)[0] == 0 && be16(122)[1] == 122);
    assert(front[3] == 0 && front[4] == 122);
    assert(incoming[0] == front[0] && incoming[1] == front[1] && incoming[2] == front[2]
        && incoming[3] == front[3] && incoming[4] == front[4]);
    assert(record_length(incoming) == Ok::<int, Fault>(127));
    assert(incoming.subrange(5, 127) =~= hello);
    assert(incoming.subrange(127, incoming.len() as int) =~= records);
}

proof fn lemma_acceptable(flight: FlightShape, messages: Seq<Seq<u8>>)
    requires
        flight.plaintext.len() == 0,
        flight.offset == 0,
        flight.found == 0,
        completes(flight, messages),
        client_finished(taken_in(flight, messages, messages.len())->Ok_0) is Ok,
    ensures
        acceptable(flight, joined(messages, messages.len())),
        joined(messages, messages.len()).len() > 0,
{
    let text = joined(messages, messages.len());
    let done = taken_in(flight, messages, messages.len())->Ok_0;
    assert(next_message_end(flight) is None);
    lemma_joined(flight, messages, messages.len());
    assert(flight_verdict(renumbered(done, flight.seq)) == flight_verdict(done));
    assert(client_finished(renumbered(done, flight.seq)) == client_finished(done));
    if text.len() == 0 {
        assert(extended(flight, text).plaintext =~= flight.plaintext);
        assert(after_messages(extended(flight, text)) == Ok::<FlightShape, Fault>(flight));
    }
}

/// A server that shares the client's secrets brings the handshake to its end: a
/// client that awaits the answer to its hello, and is handed the ServerHello and
/// the records of the flight that the server makes of that hello, completes on
/// them, with nothing left over.
///
/// The server reads the hello with its private key and comes to the client's
/// authentication key; both ends of the exchange come to the same secret; the
/// client's profile offers the suite that the server picks; the server's random
/// value is not the one of a retry; the flight's messages are those that complete
/// and its records open to them; and the client can seal its answer.
pub proof fn a_server_that_shares_the_secrets_completes_the_handshake(
    connection: ConnectionShape,
    client_hello: Seq<u8>,
    exchange: ExchangeShape,
    parsed: ParsedShape,
    server_private: Seq<u8>,
    server_random: Seq<u8>,
    private: Seq<u8>,
    messages: Seq<Seq<u8>>,
    records: Seq<u8>,
    count: nat,
)
    requires
        connection.phase == (PhaseShape::AwaitingServerHello {
            client_hello,
            key_exchange: exchange,
            auth_key: parsed.auth_key,
        }),
        connection.incoming.len() == 0,
        connection.failed is None,
        !connection.closed,
        parsed_hello(client_hello, server_private) == Ok::<ParsedShape, Fault>(parsed),
        negotiable_suites(
            connection.profile.cipher_suites,
            connection.profile.cipher_suites.len(),
        ).contains(parsed.cipher_suite),
        server_random.len() == 32,
        server_random != retry_random(),
        answered(parsed, server_random, private) matches Ok((hello, secret)) && completed(
            exchange,
            ShareShape::X25519(x25519_public_of(private)->Ok_0),
        ) == Ok::<Seq<u8>, Fault>(secret) && {
            let flight = flight_after(
                parsed.cipher_suite,
                secret,
                client_hello + hello,
                parsed.auth_key,
            );
            &&& completes(flight, messages)
            &&& client_finished(taken_in(flight, messages, messages.len())->Ok_0) is Ok
            &&& opened_stream(flight_seal(flight), records, CONTENT_TYPE_HANDSHAKE) == Some(
                (joined(messages, messages.len()), count),
            )
        },
    ensures
        ({
            let hello = (answered(parsed, server_random, private)->Ok_0).0;
            let (result, after) = processed(fed(connection, hello_record(hello) + records));
            &&& result is Ok
            &&& after.phase is Complete
            &&& after.incoming.len() == 0
            &&& after.failed is None
            &&& !after.closed
            &&& after.received == connection.received
        }),
{
    let (hello, secret) = answered(parsed, server_random, private)->Ok_0;
    let flight = flight_after(
        parsed.cipher_suite,
        secret,
        client_hello + hello,
        parsed.auth_key,
    );
    lemma_negotiated(
        connection,
        client_hello,
        exchange,
        parsed,
        server_private,
        server_random,
        private,
        hello,
        secret,
    );
    lemma_hello_taken(
        connection,
        client_hello,
        exchange,
        parsed.auth_key,
        hello,
        records,
        flight,
    );
    lemma_acceptable(flight, messages);
    let after = ConnectionShape {
        phase: PhaseShape::ProcessingHandshake(flight),
        incoming: records,
        ..connection
    };
    lemma_flight_completes(after, flight, joined(messages, messages.len()), count);
}

} // verus!
