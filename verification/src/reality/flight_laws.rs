//! Who completes a handshake: what a server has to have shown, byte for byte.
use crate::crypto::{ed25519_verifies, hmac_sha512_of};
use crate::error::Fault;
use crate::octets::{read16, read24};
use crate::reality::auth::{certificate_in, certificate_key};
use crate::reality::auth_laws::{
    a_signature_covers_spaces_context_and_hash, a_verify_message_is_one_signature,
    an_accepted_certificate_is_bound_to_the_key, is_key_of, signature_context,
};
use crate::reality::cipher_suite::CipherSuite;
use crate::reality::client_connection::{
    client_finished, consumed, encrypted_handshake_step, established, flight_after,
    ConnectionShape, PhaseShape,
};
use crate::reality::handshake::{
    after_content, after_message, after_messages, flight_hash, flight_seal, flight_verdict,
    next_message_end, proven_key, FlightShape,
};
use crate::reality::records::{opened_handshake, opened_record};
use crate::reality::schedule_laws::{
    digest, digest_len, digests_have_their_length, finished_covers_the_transcript, keyed,
    label_finished, labelled,
};
use vstd::prelude::*;

verus! {

/// Where the handshake message at `at` ends: behind its type, three bytes of length, and
/// as many bytes.
pub open spec fn message_end(flight: Seq<u8>, at: int) -> int {
    at + 4 + read24(flight, at + 1)
}

/// Whether a server has shown in its flight that it holds the authentication key and the
/// secrets of the handshake. The flight is four messages and nothing else:
/// EncryptedExtensions, Certificate, CertificateVerify and Finished. The certificate ends
/// in the HMAC-SHA512 of its Ed25519 key under the authentication key. That key has
/// signed the hash of everything up to the Certificate message. The Finished message is
/// the HMAC of the hash of everything before it, under the server's finished key.
pub open spec fn proves_itself(
    suite: CipherSuite,
    auth_key: Seq<u8>,
    server_secret: Seq<u8>,
    transcript: Seq<u8>,
    flight: Seq<u8>,
) -> bool {
    let certificate = message_end(flight, 0);
    let verify = message_end(flight, certificate);
    let finished = message_end(flight, verify);
    let message = flight.subrange(certificate, verify);
    let entry = 8 + message[4];
    let der = message.subrange(entry + 3, entry + 3 + read24(message, entry));
    &&& message_end(flight, finished) == flight.len()
    &&& flight[0] == 8 && flight[certificate] == 11 && flight[verify] == 15 && flight[finished]
        == 20
    &&& entry + 3 + read24(message, entry) <= message.len()
    &&& der.len() >= 64
    &&& exists|key: Seq<u8>, at: int|
        {
            &&& #[trigger] is_key_of(der, key, at)
            &&& der.skip(der.len() - 64) == hmac_sha512_of(auth_key, key)
            &&& ed25519_verifies(
                key,
                Seq::new(64, |i: int| 32u8) + signature_context() + seq![0u8] + digest(
                    suite,
                    transcript + flight.take(verify),
                ),
                flight.subrange(verify + 8, finished),
            )
        }
    &&& finished - verify == 72
    &&& flight.subrange(verify + 4, verify + 8) == seq![8u8, 7u8, 0u8, 64u8]
    &&& flight.skip(finished + 4) == keyed(
        suite,
        labelled(suite, server_secret, digest_len(suite), label_finished(), Seq::empty()),
        digest(suite, transcript + flight.take(finished)),
    )
}

/// Whether a flight is as far as its messages say: each found one where the one before it
/// ends, of the type that is due, and noted for what it is.
pub open spec fn on_course(flight: FlightShape) -> bool {
    let bytes = flight.plaintext;
    let certificate = message_end(bytes, 0);
    let verify = message_end(bytes, certificate);
    let finished = message_end(bytes, verify);
    &&& 0 <= flight.found <= 4
    &&& flight.offset == (if flight.found == 0 {
        0
    } else if flight.found == 1 {
        certificate
    } else if flight.found == 2 {
        verify
    } else if flight.found == 3 {
        finished
    } else {
        message_end(bytes, finished)
    })
    &&& flight.offset <= bytes.len()
    &&& flight.found >= 1 ==> bytes[0] == 8
    &&& flight.found >= 2 ==> bytes[certificate] == 11 && (flight.public_key matches Some(key)
        && proven_key(bytes.subrange(certificate, verify), flight.auth_key) == Ok::<
        Seq<u8>,
        Fault,
    >(key))
    &&& flight.found < 2 ==> flight.public_key is None
    &&& flight.found >= 3 ==> bytes[verify] == 15 && flight.verify_offset == Some(verify)
    &&& flight.found < 3 ==> flight.verify_offset is None
    &&& flight.found >= 4 ==> bytes[finished] == 20 && flight.finished_offset == Some(finished)
    &&& flight.found < 4 ==> flight.finished_offset is None
}

proof fn lemma_same_ends(short: Seq<u8>, long: Seq<u8>, at: int, limit: int)
    requires
        0 <= at,
        message_end(short, at) <= limit <= short.len() <= long.len(),
        short == long.take(short.len() as int),
    ensures
        message_end(long, at) == message_end(short, at),
        long[at] == short[at],
{
    assert(read24(short, at + 1) >= 0);
    assert(short[at] == long[at]);
    assert(short[at + 1] == long[at + 1]);
    assert(short[at + 2] == long[at + 2]);
    assert(short[at + 3] == long[at + 3]);
}

proof fn lemma_more_content(flight: FlightShape, content: Seq<u8>, seq: int)
    requires
        on_course(flight),
    ensures
        on_course(FlightShape { plaintext: flight.plaintext + content, seq, ..flight }),
{
    let short = flight.plaintext;
    let long = flight.plaintext + content;
    assert(long.take(short.len() as int) =~= short);
    let certificate = message_end(short, 0);
    let verify = message_end(short, certificate);
    let finished = message_end(short, verify);
    let limit = flight.offset;
    if flight.found >= 1 {
        lemma_same_ends(short, long, 0, limit);
    }
    if flight.found >= 2 {
        lemma_same_ends(short, long, certificate, limit);
        assert(long.subrange(certificate, verify) =~= short.subrange(certificate, verify));
    }
    if flight.found >= 3 {
        lemma_same_ends(short, long, verify, limit);
    }
    if flight.found >= 4 {
        lemma_same_ends(short, long, finished, limit);
    }
}

proof fn lemma_next_message(flight: FlightShape, end: int)
    requires
        on_course(flight),
        next_message_end(flight) == Some(end),
    ensures
        after_message(flight, end) matches Ok(next) ==> on_course(next) && next.plaintext
            == flight.plaintext && next.suite == flight.suite && next.auth_key == flight.auth_key
            && next.server_secret == flight.server_secret && next.client_secret
            == flight.client_secret && next.master_secret == flight.master_secret
            && next.transcript == flight.transcript && next.seq == flight.seq && next.offset
            > flight.offset,
{
}

/// What stays of a flight while its messages are found.
pub open spec fn same_secrets(flight: FlightShape, next: FlightShape) -> bool {
    &&& next.suite == flight.suite
    &&& next.auth_key == flight.auth_key
    &&& next.server_secret == flight.server_secret
    &&& next.client_secret == flight.client_secret
    &&& next.master_secret == flight.master_secret
    &&& next.transcript == flight.transcript
}

proof fn lemma_all_messages(flight: FlightShape)
    requires
        on_course(flight),
    ensures
        after_messages(flight) matches Ok(next) ==> on_course(next) && next.plaintext
            == flight.plaintext && same_secrets(flight, next) && next.seq == flight.seq,
    decreases flight.plaintext.len() - flight.offset,
{
    if let Some(end) = next_message_end(flight) {
        lemma_next_message(flight, end);
        if let Ok(next) = after_message(flight, end) {
            lemma_all_messages(next);
        }
    }
}

proof fn lemma_verdict(flight: FlightShape)
    requires
        on_course(flight),
        flight.found == 4,
        flight_verdict(flight) is Ok,
        digests_have_their_length(flight.suite),
    ensures
        proves_itself(
            flight.suite,
            flight.auth_key,
            flight.server_secret,
            flight.transcript,
            flight.plaintext,
        ),
{
    let bytes = flight.plaintext;
    let certificate = message_end(bytes, 0);
    let verify = message_end(bytes, certificate);
    let finished = message_end(bytes, verify);
    let message = bytes.subrange(certificate, verify);
    let entry = 8 + message[4];
    let key = flight.public_key->0;
    let der = certificate_in(message)->Ok_0;
    let at = an_accepted_certificate_is_bound_to_the_key(der, flight.auth_key);
    assert(certificate_key(der) == Ok::<Seq<u8>, Fault>(key));
    assert(der == message.subrange(entry + 3, entry + 3 + read24(message, entry)));
    let signature = bytes.subrange(verify, finished);
    a_verify_message_is_one_signature(signature);
    assert(signature.skip(8) =~= bytes.subrange(verify + 8, finished));
    assert(signature.subrange(4, 8) =~= bytes.subrange(verify + 4, verify + 8));
    assert(bytes.subrange(0, verify) =~= bytes.take(verify));
    assert(bytes.subrange(0, finished) =~= bytes.take(finished));
    assert(flight_hash(flight, verify) == digest(
        flight.suite,
        flight.transcript + bytes.take(verify),
    ));
    a_signature_covers_spaces_context_and_hash(flight_hash(flight, verify));
    assert(is_key_of(der, key, at));
    finished_covers_the_transcript(
        flight.suite,
        flight.server_secret,
        flight_hash(flight, finished),
    );
    assert(bytes.subrange(finished + 4, bytes.len() as int) =~= bytes.skip(finished + 4));
}

/// A handshake starts out on course, stays on it with every record, and completes only on
/// a flight in which the server has proved itself. The record that completes it is
/// application data on the wire and a handshake record under the server's handshake keys,
/// and the client answers with its Finished message.
pub proof fn a_handshake_completes_only_on_a_proven_flight(
    connection: ConnectionShape,
    flight: FlightShape,
)
    requires
        connection.phase == PhaseShape::ProcessingHandshake(flight),
        on_course(flight),
        digests_have_their_length(flight.suite),
    ensures
        ({
            let incoming = connection.incoming;
            let length = read16(incoming, 3);
            let (result, next) = encrypted_handshake_step(connection);
            &&& next.phase matches PhaseShape::ProcessingHandshake(later) ==> on_course(later)
                && same_secrets(flight, later)
            &&& next.phase is Complete ==> {
                &&& incoming.len() >= 5 + length
                &&& incoming.take(3) == seq![23u8, 3u8, 3u8]
                &&& next.incoming == incoming.skip(5 + length)
                &&& opened_record(
                    flight_seal(flight),
                    incoming.subrange(5, 5 + length),
                    length as u16,
                ) matches Ok((kind, content))
                &&& kind == 22
                &&& proves_itself(
                    flight.suite,
                    flight.auth_key,
                    flight.server_secret,
                    flight.transcript,
                    flight.plaintext + content,
                )
                &&& exists|last: FlightShape|
                    {
                        &&& last.plaintext == flight.plaintext + content
                        &&& same_secrets(flight, last)
                        &&& (#[trigger] client_finished(last)) matches Ok((records, _)) && next
                            == established(consumed(connection, 5 + length), last, records)
                    }
            }
        }),
{
    let incoming = connection.incoming;
    let length = read16(incoming, 3);
    let (result, next) = encrypted_handshake_step(connection);
    if incoming.len() >= 5 {
        assert(0 <= length <= 65535);
    }
    if next.phase is Complete || next.phase != connection.phase {
        let body = incoming.subrange(5, 5 + length);
        assert(body.len() == length);
        let content = opened_handshake(flight_seal(flight), body, body.len() as u16)->Ok_0;
        let fed = FlightShape {
            plaintext: flight.plaintext + content,
            seq: flight.seq + 1,
            ..flight
        };
        lemma_more_content(flight, content, flight.seq + 1);
        lemma_all_messages(fed);
        let last = after_content(flight, content)->Ok_0;
        if next.phase is Complete {
            lemma_verdict(last);
            let (records, count) = client_finished(last)->Ok_0;
            assert(incoming.take(3) =~= seq![23u8, 3u8, 3u8]);
            assert(incoming.subrange(5 + length, incoming.len() as int) =~= incoming.skip(
                5 + length,
            ));
        }
    }
}

/// The flight behind a ServerHello is on course.
pub proof fn a_fresh_flight_is_on_course(
    suite: CipherSuite,
    secret: Seq<u8>,
    transcript: Seq<u8>,
    auth_key: Seq<u8>,
)
    ensures
        on_course(flight_after(suite, secret, transcript, auth_key)),
{
}

} // verus!
