//! What a connection does with the records that come in and the bytes that go out.
use crate::error::{ErrorKind, Fault};
use crate::octets::read16;
use crate::reality::client_connection::{
    alert_verdict, application_step, encrypted_handshake_step, flushed, opened_connection,
    opens_as, processed, read_room, server_hello_step, ConnectionShape, PhaseShape,
};
use crate::reality::common::split_content_type;
use crate::reality::driver::{drained, step_after_send, taken_in, valid_timeout, HandshakeStep};
use crate::reality::hello_profile::ProfileShape;
use crate::reality::key_exchange::{serves, ExchangeShape};
use crate::reality::prepared_hello::{prepared, profile_groups, HelloDraws, IdentityShape};
use crate::reality::records::{
    opened_record, sealed_prefix, sealed_record, sealed_stream, SealState,
};
use vstd::prelude::*;

verus! {

/// An alert whose second byte is 0 closes, whatever its level is. Any other one ends the
/// connection unless its level is 1, a warning. Fewer than two bytes say nothing.
pub proof fn an_alert_is_a_level_and_a_description(alert: Seq<u8>)
    ensures
        alert_verdict(alert) is Close <==> alert.len() >= 2 && alert[1] == 0,
        alert_verdict(alert) is Abort <==> alert.len() >= 2 && alert[1] != 0 && alert[0] != 1,
        alert_verdict(alert) is Ignore <==> alert.len() < 2 || (alert[0] == 1 && alert[1] != 0),
{
}

/// The connection once a record of its server has been opened: the record is counted.
pub open spec fn next_number(connection: ConnectionShape) -> ConnectionShape {
    match connection.reading {
        None => connection,
        Some(reading) => ConnectionShape {
            reading: Some(SealState { seq: reading.seq + 1, ..reading }),
            ..connection
        },
    }
}

/// The connection without the record at its front, which has as many bytes behind its
/// header.
pub open spec fn behind_record(connection: ConnectionShape, declared: int) -> ConnectionShape {
    ConnectionShape {
        incoming: connection.incoming.skip(5 + declared),
        ..next_number(connection)
    }
}

/// Records of an established connection are taken one by one. Nothing happens before a
/// record is whole, and none declares more than 16640 bytes. Application data goes behind
/// what came before; an alert that closes is the last thing that counts; other content,
/// and a record that does not open, end the connection with an error.
pub proof fn application_records_are_taken_one_by_one(connection: ConnectionShape)
    requires
        connection.reading is Some,
    ensures
        ({
            let incoming = connection.incoming;
            let declared = read16(incoming, 3);
            let whole = incoming.len() >= 5 && declared <= 16640 && incoming.len() >= 5 + declared;
            let (outcome, after) = application_step(connection);
            let opened = opened_record(
                connection.reading->0,
                incoming.subrange(5, 5 + declared),
                declared as u16,
            );
            &&& incoming.len() < 5 || (declared <= 16640 && incoming.len() < 5 + declared) ==> outcome
                is Ok && after == connection
            &&& incoming.len() >= 5 && declared > 16640 ==> outcome is Err && after == connection
            &&& whole && opened is Err ==> outcome is Err && after == connection
            &&& whole && opened is Ok ==> {
                let (content_type, content) = opened->Ok_0;
                let rest = behind_record(connection, declared);
                &&& content_type == 23 ==> (outcome, after) == application_step(
                    ConnectionShape { received: connection.received + content, ..rest },
                )
                &&& content_type == 21 && alert_verdict(content) is Close ==> outcome is Ok && after
                    == (ConnectionShape { closed: true, ..next_number(connection) })
                &&& content_type == 21 && alert_verdict(content) is Ignore ==> (outcome, after)
                    == application_step(rest)
                &&& content_type == 21 && alert_verdict(content) is Abort ==> outcome is Err
                    && outcome->Err_0.0 == ErrorKind::ConnectionAborted && after == next_number(
                    connection,
                )
                &&& content_type != 21 && content_type != 23 ==> outcome is Err
                    && outcome->Err_0.0 == ErrorKind::InvalidData && after == next_number(
                    connection,
                )
            }
        }),
{
    let incoming = connection.incoming;
    let declared = read16(incoming, 3);
    if incoming.len() >= 5 + declared {
        assert(incoming.skip(5 + declared) =~= incoming.subrange(
            5 + declared,
            incoming.len() as int,
        ));
    }
}

/// Before the server's flight is over, a record of type 20 is passed over and one of type
/// 23 is read; no other type is taken, nor a version but 0x0303, nor more than 16640 bytes.
/// Nothing happens before a record is whole.
pub proof fn handshake_records_are_taken_one_by_one(connection: ConnectionShape)
    requires
        connection.phase is ProcessingHandshake,
    ensures
        ({
            let incoming = connection.incoming;
            let declared = read16(incoming, 3);
            let (outcome, after) = encrypted_handshake_step(connection);
            let proper = incoming.len() >= 5 && incoming[1] == 3 && incoming[2] == 3 && declared
                <= 16640;
            &&& incoming.len() < 5 || (proper && incoming.len() < 5 + declared) ==> outcome == Ok::<
                bool,
                Fault,
            >(false) && after == connection
            &&& incoming.len() >= 5 && !proper ==> outcome is Err && after == connection
            &&& proper && incoming.len() >= 5 + declared && incoming[0] == 20 ==> outcome == Ok::<
                bool,
                Fault,
            >(true) && after == (ConnectionShape {
                incoming: incoming.skip(5 + declared),
                ..connection
            })
            &&& proper && incoming.len() >= 5 + declared && incoming[0] != 20 && incoming[0] != 23
                ==> outcome is Err && after == connection
            &&& proper && incoming.len() >= 5 + declared && incoming[0] == 23 ==> after.incoming
                == incoming.skip(5 + declared)
        }),
{
    let incoming = connection.incoming;
    let declared = read16(incoming, 3);
    if incoming.len() >= 5 + declared {
        assert(incoming.skip(5 + declared) =~= incoming.subrange(
            5 + declared,
            incoming.len() as int,
        ));
    }
}

/// The answer comes in a record of type 22 and version 0x0303 of at most 16640 bytes.
/// Nothing happens before it is whole, and a whole one is taken off whatever it holds.
pub proof fn the_answering_record_is_taken_whole(connection: ConnectionShape)
    requires
        connection.phase is AwaitingServerHello,
    ensures
        ({
            let incoming = connection.incoming;
            let declared = read16(incoming, 3);
            let (outcome, after) = server_hello_step(connection);
            let proper = incoming.len() >= 5 && incoming[0] == 22 && incoming[1] == 3 && incoming[2]
                == 3 && declared <= 16640;
            &&& incoming.len() < 5 || (proper && incoming.len() < 5 + declared) ==> outcome == Ok::<
                bool,
                Fault,
            >(false) && after == connection
            &&& incoming.len() >= 5 && !proper ==> outcome is Err && after == connection
            &&& proper && incoming.len() >= 5 + declared ==> after.incoming == incoming.skip(
                5 + declared,
            ) && (outcome is Ok <==> after.phase is ProcessingHandshake)
        }),
{
    let incoming = connection.incoming;
    let declared = read16(incoming, 3);
    if incoming.len() >= 5 + declared {
        assert(incoming.skip(5 + declared) =~= incoming.subrange(
            5 + declared,
            incoming.len() as int,
        ));
    }
}

/// A connection that has failed answers with the same kind of failure from then on and
/// changes no more. One that the server has closed takes nothing more in. Bad data, a
/// server that does not prove itself, and an alert that aborts are kept as the failure.
pub proof fn a_failure_is_kept(connection: ConnectionShape)
    ensures
        ({
            let (outcome, after) = processed(connection);
            &&& connection.failed matches Some(kind) ==> after == connection && outcome is Err
                && outcome->Err_0.0 == kind
            &&& connection.failed is None && connection.closed ==> after == connection && outcome
                is Ok
            &&& connection.failed is None && !connection.closed && outcome is Err ==> {
                let kind = outcome->Err_0.0;
                kind == ErrorKind::InvalidData || kind == ErrorKind::PermissionDenied || kind
                    == ErrorKind::ConnectionAborted ==> after.failed == Some(kind)
            }
        }),
{
}

/// What is read fits in two largest records of 16645 bytes with what came before, and is
/// no more than one at a time. Something is read where there is room.
pub proof fn a_read_fits_in_the_buffer(connection: ConnectionShape)
    ensures
        0 <= read_room(connection) <= 16645,
        connection.incoming.len() <= 33290 ==> connection.incoming.len() + read_room(connection)
            <= 33290,
        read_room(connection) > 0 <==> connection.incoming.len() < 33290,
        connection.incoming.len() <= 16645 ==> read_room(connection) == 16645,
        16645 <= connection.incoming.len() <= 33290 ==> connection.incoming.len() + read_room(
            connection,
        ) == 33290,
{
}

/// Content goes out in records of 16384 bytes each, numbered one after another, and what
/// is left over in one more.
pub proof fn content_is_cut_at_16384_bytes(
    state: SealState,
    content: Seq<u8>,
    content_type: u8,
)
    ensures
        ({
            let next = SealState { seq: state.seq + 1, ..state };
            let first = sealed_record(state, content.take(16384), content_type);
            let later = sealed_stream(next, content.skip(16384), content_type);
            let only = sealed_record(state, content, content_type);
            let stream = sealed_stream(state, content, content_type);
            &&& content.len() == 0 ==> stream == Ok::<(Seq<u8>, nat), Fault>((Seq::empty(), 0))
            &&& 1 <= content.len() <= 16384 ==> (stream is Ok <==> only is Ok)
            &&& 1 <= content.len() <= 16384 && only is Ok ==> stream == Ok::<(Seq<u8>, nat), Fault>(
                (only->Ok_0, 1),
            )
            &&& content.len() > 16384 ==> (stream is Ok <==> first is Ok && later is Ok)
            &&& content.len() > 16384 && first is Ok && later is Ok ==> stream == Ok::<
                (Seq<u8>, nat),
                Fault,
            >((first->Ok_0 + later->Ok_0.0, later->Ok_0.1 + 1))
        }),
{
    if 1 <= content.len() <= 16384 {
        let next = SealState { seq: state.seq + 1, ..state };
        assert(content.subrange(0, content.len() as int) =~= content);
        let none = content.subrange(content.len() as int, content.len() as int);
        assert(none.len() == 0);
        assert(sealed_stream(next, none, content_type) == Ok::<(Seq<u8>, nat), Fault>(
            (Seq::empty(), 0),
        ));
        if let Ok(record) = sealed_record(state, content, content_type) {
            assert(record + Seq::<u8>::empty() =~= record);
        }
    } else if content.len() > 16384 {
        assert(content.subrange(0, 16384) =~= content.take(16384));
        assert(content.subrange(16384, content.len() as int) =~= content.skip(16384));
    }
}

proof fn lemma_whole_prefix(state: SealState, content: Seq<u8>, content_type: u8)
    ensures
        sealed_stream(state, content, content_type) matches Ok(stream) ==> sealed_prefix(
            state,
            content,
            content_type,
        ) == stream,
    decreases content.len(),
{
    if content.len() > 0 {
        let take = if content.len() <= 16384 {
            content.len() as int
        } else {
            16384
        };
        let next = SealState { seq: state.seq + 1, ..state };
        lemma_whole_prefix(next, content.subrange(take, content.len() as int), content_type);
    }
}

/// Flushing an established connection puts the records of its plaintext behind what has
/// to go out, counts them, and leaves no plaintext. Before that it changes nothing.
pub proof fn flushing_sends_all_plaintext(connection: ConnectionShape)
    ensures
        ({
            let (outcome, after) = flushed(connection);
            &&& connection.phase !is Complete || connection.pending.len() == 0 ==> outcome is Ok
                && after == connection
            &&& connection.phase is Complete && connection.pending.len() > 0
                && connection.writing is None ==> outcome is Err && after == connection
            &&& connection.phase is Complete && connection.pending.len() > 0
                && connection.writing is Some ==> {
                let writing = connection.writing->0;
                let stream = sealed_stream(writing, connection.pending, 23);
                &&& outcome is Ok <==> stream is Ok
                &&& stream matches Ok((records, count)) ==> after == (ConnectionShape {
                    outgoing: connection.outgoing + records,
                    writing: Some(SealState { seq: writing.seq + count, ..writing }),
                    pending: Seq::empty(),
                    ..connection
                })
                &&& stream is Err ==> after.pending == connection.pending
            }
        }),
{
    if connection.writing is Some {
        lemma_whole_prefix(connection.writing->0, connection.pending, 23);
    }
}

/// What is drained is everything that has to go out, and then nothing has. Plaintext that
/// cannot be sealed yet is an error.
pub proof fn draining_sends_everything(connection: ConnectionShape)
    ensures
        ({
            let (outcome, after) = drained(connection);
            &&& outcome is Ok ==> after.outgoing.len() == 0 && after.pending.len() == 0
            &&& outcome matches Ok(bytes) ==> bytes == flushed(connection).1.outgoing
            &&& connection.pending.len() == 0 ==> outcome == Ok::<Seq<u8>, Fault>(
                connection.outgoing,
            )
            &&& connection.pending.len() > 0 && connection.phase !is Complete ==> outcome is Err
        }),
{
    if connection.outgoing.len() == 0 && connection.pending.len() == 0 {
        assert(connection.outgoing =~= Seq::<u8>::empty());
    }
}

/// Once everything is sent, a handshake is done where it is complete; one that neither
/// has failed nor was closed goes on reading; any other one is an error.
pub proof fn a_handshake_goes_on_reading_until_it_is_done(connection: ConnectionShape)
    ensures
        step_after_send(connection) == Ok::<HandshakeStep, Fault>(HandshakeStep::Done)
            <==> connection.phase is Complete,
        step_after_send(connection) == Ok::<HandshakeStep, Fault>(HandshakeStep::Read)
            <==> connection.phase !is Complete && !connection.closed && connection.failed is None,
        step_after_send(connection) is Err <==> connection.phase !is Complete && (connection.closed
            || connection.failed is Some),
{
}

/// The end of the stream during a handshake is an error, and so are more bytes than the
/// buffer of 33290 takes. All others go behind those that came before, and are processed.
pub proof fn what_is_read_is_processed(connection: ConnectionShape, data: Seq<u8>)
    ensures
        ({
            let (outcome, after) = taken_in(connection, data);
            let fed = ConnectionShape { incoming: connection.incoming + data, ..connection };
            &&& data.len() == 0 ==> outcome is Err && outcome->Err_0.0 == ErrorKind::UnexpectedEof
                && after == connection
            &&& data.len() > 0 && connection.incoming.len() + data.len() <= 33290 ==> (
            outcome, after) == processed(fed)
            &&& data.len() > 0 && connection.incoming.len() + data.len() > 33290 ==> outcome is Err
        }),
{
}

/// A handshake may take any time up to a minute, but not none.
pub proof fn a_handshake_takes_at_most_a_minute(seconds: u64, nanoseconds: u32)
    requires
        nanoseconds < 1_000_000_000,
    ensures
        valid_timeout(seconds, nanoseconds) <==> 0 < seconds * 1_000_000_000 + nanoseconds
            <= 60 * 1_000_000_000,
{
}

/// A fresh connection has its hello to send and nothing else: it waits for the answer
/// with the keys that the hello was made from, and holds no traffic keys, no data and no
/// failure.
pub proof fn a_fresh_connection_sends_its_hello(
    profile: ProfileShape,
    identity: IdentityShape,
    connection: ConnectionShape,
) -> (made: (ExchangeShape, HelloDraws))
    requires
        opens_as(profile, identity, connection),
    ensures
        serves(made.0, profile_groups(profile), profile.reuse_classical_key_share),
        prepared(profile, identity, made.0, made.1) matches Ok(hello) && connection.outgoing
            == hello.record && connection.phase == (PhaseShape::AwaitingServerHello {
            client_hello: hello.client_hello,
            key_exchange: made.0,
            auth_key: hello.auth_key,
        }),
        connection.profile == profile,
        connection.reading is None,
        connection.writing is None,
        connection.incoming.len() == 0,
        connection.received.len() == 0,
        connection.pending.len() == 0,
        !connection.closed,
        connection.failed is None,
{
    choose|exchange: ExchangeShape, draws: HelloDraws|
        {
            &&& serves(exchange, profile_groups(profile), profile.reuse_classical_key_share)
            &&& (#[trigger] prepared(profile, identity, exchange, draws)) matches Ok(hello)
                && connection == opened_connection(profile, exchange, hello)
        }
}

/// The last byte of an unpadded plaintext is its type, 21, 22 or 23, and what stands before
/// it is the content.
pub proof fn the_last_byte_is_the_content_type(plaintext: Seq<u8>)
    ensures
        split_content_type(plaintext) is Ok <==> plaintext.len() > 0 && 21 <= plaintext.last() <= 23,
        split_content_type(plaintext) matches Ok((content_type, length)) ==> content_type
            == plaintext.last() && plaintext.take(length).push(content_type) == plaintext,
{
    if let Ok((content_type, length)) = split_content_type(plaintext) {
        assert(plaintext.take(length).push(content_type) =~= plaintext);
    }
}

} // verus!
