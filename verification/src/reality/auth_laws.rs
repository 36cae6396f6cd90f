//! How client and server know each other, in the bytes of the wire: what the hello
//! carries for the server, what the certificate carries for the client, and what
//! signatures cover.
use crate::crypto::{aes_256_gcm_sealed, hmac_sha256_of, hmac_sha512_of, x25519_secret_of};
use crate::error::Fault;
use crate::octets::{be16, be32, read16};
use crate::reality::auth::{
    certificate_in, certificate_key, certificate_verdict, ed25519_key_from, key_marked_at,
    session_metadata, signed_content, verify_signature_in,
};
use crate::reality::client_hello::{client_hello_message, hello_keeps_the_session_id_window};
use crate::reality::hello_profile::ProfileShape;
use crate::reality::key_exchange::ExchangeShape;
use crate::reality::messages::{certificate_body, handshake_message};
use crate::reality::schedule_laws::lemma_ascii;
use crate::reality::prepared_hello::{
    plain_session, prepared, profile_groups, shares_for, HelloDraws, IdentityShape,
};
use crate::reality::testkit::bound_certificate;
use vstd::prelude::*;
use vstd::string::*;

verus! {

/// A hello with 32 zeros in place of its session id.
pub open spec fn blanked(message: Seq<u8>) -> Seq<u8> {
    message.take(39) + Seq::new(32, |i: int| 0u8) + message.skip(71)
}

/// The sixteen bytes by which a client names itself: the version 1.8.0, a zero, the
/// low four bytes of the time, most significant first, and the short id.
pub open spec fn client_note(timestamp: u64, short_id: Seq<u8>) -> Seq<u8> {
    seq![
        1u8,
        8u8,
        0u8,
        0u8,
        (timestamp / 16777216 % 256) as u8,
        (timestamp / 65536 % 256) as u8,
        (timestamp / 256 % 256) as u8,
        (timestamp % 256) as u8,
    ] + short_id
}

/// The metadata of a session id reads as the client's note.
pub proof fn metadata_is_the_clients_note(timestamp: u64, short_id: Seq<u8>)
    ensures
        session_metadata((timestamp % 0x1_0000_0000) as u32, short_id) == client_note(
            timestamp,
            short_id,
        ),
{
    let low = (timestamp % 0x1_0000_0000) as u32;
    let kept = timestamp % 0x1_0000_0000;
    assert(kept / 16777216 == timestamp / 16777216 % 256 && kept / 65536 % 256 == timestamp / 65536
        % 256 && kept / 256 % 256 == timestamp / 256 % 256 && kept % 256 == timestamp % 256)
        by (bit_vector)
        requires
            kept == timestamp % 0x1_0000_0000,
    ;
    assert(low == kept);
    assert(be32(low) =~= seq![
        (timestamp / 16777216 % 256) as u8,
        (timestamp / 65536 % 256) as u8,
        (timestamp / 256 % 256) as u8,
        (timestamp % 256) as u8,
    ]);
    assert(session_metadata(low, short_id) =~= client_note(timestamp, short_id));
}

/// A prepared hello is for one server and no other. Its authentication key is what
/// HKDF-SHA256 makes of the secret that the plain X25519 share agrees on with the
/// server's key, with the first twenty bytes of the random in the message as salt and
/// `REALITY` as label. The client's note, sealed under that key with the last twelve
/// bytes of the random as nonce over the message with a blank session id, is the
/// session id. The message goes out in one handshake record of TLS 1.0. That sealing
/// adds sixteen bytes is presupposed.
pub proof fn a_prepared_hello_names_the_client_to_its_server(
    profile: ProfileShape,
    identity: IdentityShape,
    exchange: ExchangeShape,
    draws: HelloDraws,
)
    requires
        identity.short_id.len() == 8,
        forall|key: Seq<u8>, nonce: Seq<u8>, aad: Seq<u8>, plaintext: Seq<u8>|
            (#[trigger] aes_256_gcm_sealed(key, nonce, aad, plaintext)) matches Some(sealed)
                ==> sealed.len() == plaintext.len() + 16,
    ensures
        prepared(profile, identity, exchange, draws) matches Ok(hello) ==> {
            let message = hello.client_hello;
            &&& message.subrange(6, 38) == draws.client_random@
            &&& x25519_secret_of(exchange.x25519_private, identity.public_key) matches Ok(secret)
            &&& hello.auth_key == hmac_sha256_of(
                hmac_sha256_of(message.subrange(6, 26), secret),
                seq![82u8, 69u8, 65u8, 76u8, 73u8, 84u8, 89u8, 1u8],
            )
            &&& aes_256_gcm_sealed(
                hello.auth_key,
                message.subrange(26, 38),
                blanked(message),
                client_note(draws.timestamp, identity.short_id),
            ) == Some(message.subrange(39, 71))
            &&& message[0] == 1 && message[38] == 32
            &&& hello.record.take(3) == seq![22u8, 3u8, 1u8]
            &&& read16(hello.record, 3) == message.len()
            &&& hello.record.skip(5) == message
        },
{
    if let Ok(hello) = prepared(profile, identity, exchange, draws) {
        let message = hello.client_hello;
        let groups = profile_groups(profile);
        let shares = shares_for(exchange, groups, groups.len())->Ok_0;
        let session = plain_session(profile, identity, draws, shares);
        let plain = client_hello_message(profile, session)->Ok_0;
        metadata_is_the_clients_note(draws.timestamp, identity.short_id);
        assert(session.session_id.len() == 32);
        hello_keeps_the_session_id_window(profile, session);
        assert(plain.subrange(6, 38) == draws.client_random@);
        assert(plain.len() >= 71);
        let blank = Seq::new(32, |i: int| 0u8);
        let over = plain.subrange(0, 39) + blank + plain.subrange(71, plain.len() as int);
        let note = client_note(draws.timestamp, identity.short_id);
        let session_id = aes_256_gcm_sealed(
            hello.auth_key,
            draws.client_random@.subrange(20, 32),
            over,
            note,
        )->0;
        assert(session_id.len() == 32);
        assert(message =~= plain.subrange(0, 39) + session_id + plain.subrange(
            71,
            plain.len() as int,
        ));
        assert forall|i: int| 0 <= i < 39 implies message[i] == plain[i] by {}
        assert(message.subrange(6, 38) =~= plain.subrange(6, 38));
        assert(message.subrange(6, 26) =~= message.subrange(6, 38).subrange(0, 20));
        assert(message.subrange(26, 38) =~= message.subrange(6, 38).subrange(20, 32));
        assert(message.subrange(39, 71) =~= session_id);
        assert(blanked(message) =~= over);
        assert(seq![82u8, 69u8, 65u8, 76u8, 73u8, 84u8, 89u8].push(1u8) =~= seq![
            82u8,
            69u8,
            65u8,
            76u8,
            73u8,
            84u8,
            89u8,
            1u8,
        ]);
        lemma_opening(plain, profile, session);
        assert(hello.record =~= seq![22u8, 3u8, 1u8] + be16(message.len() as u16) + message);
        assert(hello.record.take(3) =~= seq![22u8, 3u8, 1u8]);
        assert(hello.record.skip(5) =~= message);
    }
}

proof fn lemma_opening(
    plain: Seq<u8>,
    profile: ProfileShape,
    session: crate::reality::client_hello::SessionShape,
)
    requires
        client_hello_message(profile, session) == Ok::<Seq<u8>, Fault>(plain),
    ensures
        plain[0] == 1,
{
}

/// The eight bytes before an Ed25519 key in a certificate: the algorithm's identifier
/// 1.3.101.112 and the head of a bit string of 32 bytes.
pub open spec fn key_mark() -> Seq<u8> {
    seq![6u8, 3u8, 43u8, 101u8, 112u8, 3u8, 33u8, 0u8]
}

/// Whether a key is the one of a certificate: the 32 bytes behind the first mark.
pub open spec fn is_key_of(der: Seq<u8>, key: Seq<u8>, at: int) -> bool {
    &&& 0 <= at && at + 40 <= der.len()
    &&& der.subrange(at, at + 8) == key_mark()
    &&& key == der.subrange(at + 8, at + 40)
    &&& forall|before: int|
        0 <= before < at ==> #[trigger] der.subrange(before, before + 8) != key_mark()
}

proof fn lemma_first_key(der: Seq<u8>, from: int) -> (at: int)
    requires
        0 <= from,
        ed25519_key_from(der, from) is Some,
        forall|before: int|
            0 <= before < from ==> #[trigger] der.subrange(before, before + 8) != key_mark(),
    ensures
        is_key_of(der, ed25519_key_from(der, from)->0, at),
    decreases der.len() - from,
{
    assert(crate::reality::auth::ed25519_marker() =~= key_mark());
    if key_marked_at(der, from) {
        from
    } else {
        lemma_first_key(der, from + 1)
    }
}

/// A certificate is accepted only where its last 64 bytes are the HMAC-SHA512, under the
/// authentication key, of the Ed25519 key in it: the 32 bytes behind the first mark.
pub proof fn an_accepted_certificate_is_bound_to_the_key(der: Seq<u8>, auth_key: Seq<u8>) -> (at:
    int)
    requires
        certificate_verdict(der, auth_key) is Ok,
    ensures
        certificate_key(der) matches Ok(key) && is_key_of(der, key, at) && der.len() >= 64
            && der.skip(der.len() - 64) == hmac_sha512_of(auth_key, key),
{
    let at = lemma_first_key(der, 0);
    assert(der.skip(der.len() - 64) =~= der.subrange(der.len() - 64, der.len() as int));
    at
}

/// Where a certificate has an Ed25519 key and ends in its HMAC under the authentication
/// key, it is accepted.
pub proof fn a_bound_certificate_is_accepted(der: Seq<u8>, auth_key: Seq<u8>, key: Seq<u8>, at: int)
    requires
        is_key_of(der, key, at),
        der.len() >= 64,
        der.skip(der.len() - 64) == hmac_sha512_of(auth_key, key),
    ensures
        certificate_verdict(der, auth_key) is Ok,
        certificate_key(der) == Ok::<Seq<u8>, Fault>(key),
{
    lemma_key_found(der, key, at, 0);
    assert(der.skip(der.len() - 64) =~= der.subrange(der.len() - 64, der.len() as int));
}

proof fn lemma_key_found(der: Seq<u8>, key: Seq<u8>, at: int, from: int)
    requires
        is_key_of(der, key, at),
        0 <= from <= at,
    ensures
        ed25519_key_from(der, from) == Some(key),
    decreases at - from,
{
    assert(crate::reality::auth::ed25519_marker() =~= key_mark());
    if from < at {
        assert(der.subrange(from, from + 8) != key_mark());
        lemma_key_found(der, key, at, from + 1);
    }
}

/// A Certificate message carries its certificate behind a four-byte header, an empty
/// context, the three bytes of the list's length and the three of its own, and no
/// extensions; its readers find it there.
pub proof fn a_certificate_message_reads_back(der: Seq<u8>)
    requires
        der.len() < 16777206,
    ensures
        ({
            let message = handshake_message(11, certificate_body(der));
            &&& message[0] == 11
            &&& message.len() == der.len() + 13
            &&& crate::octets::read24(message, 1) == message.len() - 4
            &&& message[4] == 0
            &&& crate::octets::read24(message, 5) == message.len() - 8
            &&& crate::octets::read24(message, 8) == der.len()
            &&& message.subrange(11, 11 + der.len() as int) == der
            &&& message.skip(11 + der.len() as int) == seq![0u8, 0u8]
            &&& certificate_in(message) == Ok::<Seq<u8>, Fault>(der)
        }),
{
    let body = certificate_body(der);
    let message = handshake_message(11, body);
    let n = der.len() as int;
    let list = crate::octets::be24(n + 5);
    let entry = crate::octets::be24(n);
    let head = crate::octets::be24(body.len() as int);
    assert(body.len() == n + 9);
    assert(message =~= seq![11u8] + head + seq![0u8] + list + entry + der + seq![0u8, 0u8]);
    assert(message[1] == head[0] && message[2] == head[1] && message[3] == head[2]);
    assert(message[5] == list[0] && message[6] == list[1] && message[7] == list[2]);
    assert(message[8] == entry[0] && message[9] == entry[1] && message[10] == entry[2]);
    crate::octets::lemma_read_be24(n + 9);
    crate::octets::lemma_read_be24(n + 5);
    crate::octets::lemma_read_be24(n);
    assert(message.subrange(11, 11 + n) =~= der);
    assert(message.skip(11 + n) =~= seq![0u8, 0u8]);
}

/// The bytes of `TLS 1.3, server CertificateVerify`.
pub open spec fn signature_context() -> Seq<u8> {
    seq![
        84u8, 76u8, 83u8, 32u8, 49u8, 46u8, 51u8, 44u8, 32u8, 115u8, 101u8, 114u8, 118u8, 101u8,
        114u8, 32u8, 67u8, 101u8, 114u8, 116u8, 105u8, 102u8, 105u8, 99u8, 97u8, 116u8, 101u8, 86u8,
        101u8, 114u8, 105u8, 102u8, 121u8,
    ]
}

/// What a server's signature covers: 64 spaces, the context, a zero, and the hash of the
/// transcript.
pub proof fn a_signature_covers_spaces_context_and_hash(hash: Seq<u8>)
    ensures
        signed_content(hash) == Seq::new(64, |i: int| 32u8) + signature_context() + seq![0u8] + hash,
{
    reveal_strlit("TLS 1.3, server CertificateVerify");
    lemma_ascii("TLS 1.3, server CertificateVerify"@, signature_context());
}

/// The signature of a CertificateVerify message: of type 15 and 72 bytes, with the code
/// point of Ed25519, and the 64 bytes behind their length.
pub proof fn a_verify_message_is_one_signature(message: Seq<u8>)
    ensures
        verify_signature_in(message) is Ok <==> message.len() == 72 && message[0] == 15
            && message.subrange(4, 8) == seq![8u8, 7u8, 0u8, 64u8],
        verify_signature_in(message) matches Ok(signature) ==> signature == message.skip(8),
{
    if message.len() == 72 {
        let mark = message.subrange(4, 8);
        assert(mark[0] == message[4] && mark[1] == message[5] && mark[2] == message[6] && mark[3]
            == message[7]);
        if read16(message, 4) == 0x0807 && read16(message, 6) == 64 {
            assert(message[4] == 8 && message[5] == 7 && message[6] == 0 && message[7] == 64);
            assert(mark =~= seq![8u8, 7u8, 0u8, 64u8]);
        }
        assert(message.skip(8) =~= message.subrange(8, 72));
    }
}

/// Binding a certificate to a key replaces its last 64 bytes by the HMAC-SHA512 of its
/// public key under that key, and keeps everything before them. One that shows no key, or
/// has fewer bytes, cannot be bound.
pub proof fn binding_replaces_the_signature(der: Seq<u8>, auth_key: Seq<u8>)
    ensures
        bound_certificate(der, auth_key) is Ok <==> der.len() >= 64 && certificate_key(
            der.take(der.len() - 64),
        ) is Ok,
        bound_certificate(der, auth_key) matches Ok(bound) ==> {
            let front = der.take(der.len() - 64);
            &&& bound.len() >= front.len()
            &&& bound.take(front.len() as int) == front
            &&& bound.skip(front.len() as int) == hmac_sha512_of(
                auth_key,
                certificate_key(front)->Ok_0,
            )
        },
{
    if der.len() >= 64 {
        let front = der.take(der.len() - 64);
        assert(der.subrange(0, der.len() - 64) =~= front);
        if let Ok(bound) = bound_certificate(der, auth_key) {
            assert(bound.take(front.len() as int) =~= front);
            assert(bound.skip(front.len() as int) =~= hmac_sha512_of(
                auth_key,
                certificate_key(front)->Ok_0,
            ));
        }
    }
}

} // verus!
