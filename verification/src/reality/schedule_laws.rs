//! The secrets and the records of a connection in plain bytes: what each secret is the
//! HMAC of, which labels stand in it, and what a record is sealed with.
use crate::crypto::{
    aes_128_gcm_opened, aes_128_gcm_sealed, aes_256_gcm_opened, aes_256_gcm_sealed,
    chacha20_poly1305_opened, chacha20_poly1305_sealed, hmac_sha256_of, hmac_sha384_of, sha256_of,
    sha384_of,
};
use crate::octets::{be16, read16};
use crate::reality::cipher_suite::CipherSuite;
use crate::reality::client_connection::{
    application_seal, client_finished, closing, established, flight_after, ConnectionShape,
};
use crate::reality::common::without_trailing_zeros;
use crate::reality::handshake::{flight_seal, FlightShape};
use crate::reality::key_schedule::{
    expanded, finished_data, handshake_secret, hash_of, hkdf_label, hmac_of, next_salt, traffic_iv,
    traffic_key, zero_secret,
};
use crate::reality::records::{
    opened_record, record_nonce, sealed_header, sealed_record, sealed_stream, sequence_byte,
    SealState,
};
use vstd::prelude::*;
use vstd::string::*;
use vstd::utf8::{encode_utf8, is_ascii_chars, is_ascii_chars_encode_utf8};

verus! {

/// The hash of a suite: SHA-384 for AES-256-GCM, SHA-256 for the others.
pub open spec fn digest(suite: CipherSuite, data: Seq<u8>) -> Seq<u8> {
    match suite {
        CipherSuite::Aes128GcmSha256 => sha256_of(data),
        CipherSuite::Aes256GcmSha384 => sha384_of(data),
        CipherSuite::ChaCha20Poly1305Sha256 => sha256_of(data),
    }
}

/// The HMAC of a suite, over the same hash.
pub open spec fn keyed(suite: CipherSuite, key: Seq<u8>, data: Seq<u8>) -> Seq<u8> {
    match suite {
        CipherSuite::Aes128GcmSha256 => hmac_sha256_of(key, data),
        CipherSuite::Aes256GcmSha384 => hmac_sha384_of(key, data),
        CipherSuite::ChaCha20Poly1305Sha256 => hmac_sha256_of(key, data),
    }
}

/// The length of a suite's hash in bytes.
pub open spec fn digest_len(suite: CipherSuite) -> int {
    match suite {
        CipherSuite::Aes128GcmSha256 => 32,
        CipherSuite::Aes256GcmSha384 => 48,
        CipherSuite::ChaCha20Poly1305Sha256 => 32,
    }
}

/// The length of a suite's key in bytes.
pub open spec fn aead_key_len(suite: CipherSuite) -> int {
    match suite {
        CipherSuite::Aes128GcmSha256 => 16,
        CipherSuite::Aes256GcmSha384 => 32,
        CipherSuite::ChaCha20Poly1305Sha256 => 32,
    }
}

/// The bytes of `tls13 `.
pub open spec fn label_prefix() -> Seq<u8> {
    seq![116u8, 108u8, 115u8, 49u8, 51u8, 32u8]
}

/// A secret of so many bytes: HMAC over its length, the label behind the prefix of TLS
/// 1.3 and a length that counts both, the context behind its length, and a one.
pub open spec fn labelled(
    suite: CipherSuite,
    secret: Seq<u8>,
    length: int,
    label: Seq<u8>,
    context: Seq<u8>,
) -> Seq<u8> {
    keyed(
        suite,
        secret,
        seq![0u8, length as u8, (6 + label.len()) as u8] + label_prefix() + label + seq![
            context.len() as u8,
        ] + context + seq![1u8],
    ).take(length)
}

/// The bytes of `derived`.
pub open spec fn label_derived() -> Seq<u8> {
    seq![100u8, 101u8, 114u8, 105u8, 118u8, 101u8, 100u8]
}

/// The bytes of `c hs traffic`.
pub open spec fn label_client_handshake() -> Seq<u8> {
    seq![99u8, 32u8, 104u8, 115u8, 32u8, 116u8, 114u8, 97u8, 102u8, 102u8, 105u8, 99u8]
}

/// The bytes of `s hs traffic`.
pub open spec fn label_server_handshake() -> Seq<u8> {
    seq![115u8, 32u8, 104u8, 115u8, 32u8, 116u8, 114u8, 97u8, 102u8, 102u8, 105u8, 99u8]
}

/// The bytes of `c ap traffic`.
pub open spec fn label_client_application() -> Seq<u8> {
    seq![99u8, 32u8, 97u8, 112u8, 32u8, 116u8, 114u8, 97u8, 102u8, 102u8, 105u8, 99u8]
}

/// The bytes of `s ap traffic`.
pub open spec fn label_server_application() -> Seq<u8> {
    seq![115u8, 32u8, 97u8, 112u8, 32u8, 116u8, 114u8, 97u8, 102u8, 102u8, 105u8, 99u8]
}

/// The bytes of `finished`.
pub open spec fn label_finished() -> Seq<u8> {
    seq![102u8, 105u8, 110u8, 105u8, 115u8, 104u8, 101u8, 100u8]
}

/// The bytes of `key`.
pub open spec fn label_key() -> Seq<u8> {
    seq![107u8, 101u8, 121u8]
}

/// The bytes of `iv`.
pub open spec fn label_iv() -> Seq<u8> {
    seq![105u8, 118u8]
}

/// A text of ASCII is encoded as its characters.
pub(crate) proof fn lemma_ascii(text: Seq<char>, bytes: Seq<u8>)
    requires
        text.len() == bytes.len(),
        is_ascii_chars(text),
        forall|i: int| 0 <= i < text.len() ==> (#[trigger] text[i]) as u8 == bytes[i],
    ensures
        encode_utf8(text) == bytes,
{
    is_ascii_chars_encode_utf8(text);
    assert forall|i: int| 0 <= i < text.len() implies encode_utf8(text)[i] == bytes[i] by {
        assert(text[i] as u8 == encode_utf8(text)[i]);
    }
    assert(encode_utf8(text) =~= bytes);
}

proof fn lemma_labels()
    ensures
        encode_utf8("tls13 "@) == label_prefix(),
        encode_utf8("derived"@) == label_derived(),
        encode_utf8("c hs traffic"@) == label_client_handshake(),
        encode_utf8("s hs traffic"@) == label_server_handshake(),
        encode_utf8("c ap traffic"@) == label_client_application(),
        encode_utf8("s ap traffic"@) == label_server_application(),
        encode_utf8("finished"@) == label_finished(),
        encode_utf8("key"@) == label_key(),
        encode_utf8("iv"@) == label_iv(),
{
    reveal_strlit("tls13 ");
    reveal_strlit("derived");
    reveal_strlit("c hs traffic");
    reveal_strlit("s hs traffic");
    reveal_strlit("c ap traffic");
    reveal_strlit("s ap traffic");
    reveal_strlit("finished");
    reveal_strlit("key");
    reveal_strlit("iv");
    lemma_ascii("tls13 "@, label_prefix());
    lemma_ascii("derived"@, label_derived());
    lemma_ascii("c hs traffic"@, label_client_handshake());
    lemma_ascii("s hs traffic"@, label_server_handshake());
    lemma_ascii("c ap traffic"@, label_client_application());
    lemma_ascii("s ap traffic"@, label_server_application());
    lemma_ascii("finished"@, label_finished());
    lemma_ascii("key"@, label_key());
    lemma_ascii("iv"@, label_iv());
}

/// Whether the HMACs and hashes of a suite have their lengths.
pub open spec fn digests_have_their_length(suite: CipherSuite) -> bool {
    &&& forall|data: Seq<u8>| (#[trigger] digest(suite, data)).len() == digest_len(suite)
    &&& forall|key: Seq<u8>, data: Seq<u8>|
        (#[trigger] keyed(suite, key, data)).len() == digest_len(suite)
}

proof fn lemma_expanded(
    suite: CipherSuite,
    secret: Seq<u8>,
    label: Seq<char>,
    bytes: Seq<u8>,
    context: Seq<u8>,
    length: nat,
)
    requires
        encode_utf8(label) == bytes,
        encode_utf8("tls13 "@) == label_prefix(),
        bytes.len() <= 100,
        context.len() <= 100,
        length <= digest_len(suite),
        digests_have_their_length(suite),
    ensures
        expanded(suite, secret, label, context, length) == labelled(
            suite,
            secret,
            length as int,
            bytes,
            context,
        ),
{
    let info = hkdf_label(label, context, length).push(1u8);
    let plain = seq![0u8, length as u8, (6 + bytes.len()) as u8] + label_prefix() + bytes + seq![
        context.len() as u8,
    ] + context + seq![1u8];
    assert(be16(length as u16) =~= seq![0u8, length as u8]);
    assert(info =~= plain);
    let block = keyed(suite, secret, plain);
    assert(hmac_of(suite, secret, info) == block);
    assert(block.subrange(0, length as int) =~= block.take(length as int));
}

/// The secrets of a handshake are those of TLS 1.3: from zeros, the empty transcript and
/// the shared secret come the handshake secret and the master secret, and from the
/// transcript of both hellos the traffic secret of either side.
pub proof fn the_secrets_follow_tls_13(
    suite: CipherSuite,
    shared: Seq<u8>,
    transcript: Seq<u8>,
    auth_key: Seq<u8>,
)
    requires
        digests_have_their_length(suite),
    ensures
        ({
            let n = digest_len(suite);
            let zeros = Seq::new(n as nat, |i: int| 0u8);
            let nothing = digest(suite, Seq::empty());
            let early = keyed(suite, zeros, zeros);
            let handshake = keyed(
                suite,
                labelled(suite, early, n, label_derived(), nothing),
                shared,
            );
            let flight = flight_after(suite, shared, transcript, auth_key);
            &&& flight.client_secret == labelled(
                suite,
                handshake,
                n,
                label_client_handshake(),
                digest(suite, transcript),
            )
            &&& flight.server_secret == labelled(
                suite,
                handshake,
                n,
                label_server_handshake(),
                digest(suite, transcript),
            )
            &&& flight.master_secret == keyed(
                suite,
                labelled(suite, handshake, n, label_derived(), nothing),
                zeros,
            )
            &&& flight.suite == suite && flight.transcript == transcript && flight.auth_key
                == auth_key && flight.seq == 0
        }),
{
    let n = digest_len(suite);
    let zeros = Seq::new(n as nat, |i: int| 0u8);
    let nothing = digest(suite, Seq::empty());
    let early = keyed(suite, zeros, zeros);
    let hash = digest(suite, transcript);
    lemma_labels();
    assert(zero_secret(suite) =~= zeros);
    assert(hash_of(suite, Seq::empty()) == nothing);
    assert(hash_of(suite, transcript) == hash);
    assert(hmac_of(suite, zeros, zeros) == early);
    assert(nothing.len() == n && hash.len() == n);
    lemma_expanded(suite, early, "derived"@, label_derived(), nothing, n as nat);
    let salt = labelled(suite, early, n, label_derived(), nothing);
    assert(next_salt(suite, early) == salt);
    let handshake = keyed(suite, salt, shared);
    assert(handshake_secret(suite, shared) == handshake);
    lemma_expanded(suite, handshake, "derived"@, label_derived(), nothing, n as nat);
    lemma_expanded(
        suite,
        handshake,
        "c hs traffic"@,
        label_client_handshake(),
        hash,
        n as nat,
    );
    lemma_expanded(
        suite,
        handshake,
        "s hs traffic"@,
        label_server_handshake(),
        hash,
        n as nat,
    );
    assert(next_salt(suite, handshake) == labelled(suite, handshake, n, label_derived(), nothing));
}

/// The key and the IV of a traffic secret, and the number of the first record: the
/// server's flight comes under the server's handshake secret.
pub proof fn record_keys_come_from_their_secret(suite: CipherSuite, secret: Seq<u8>)
    requires
        digests_have_their_length(suite),
    ensures
        traffic_key(suite, secret) == labelled(
            suite,
            secret,
            aead_key_len(suite),
            label_key(),
            Seq::empty(),
        ),
        traffic_iv(suite, secret) == labelled(suite, secret, 12, label_iv(), Seq::empty()),
        application_seal(suite, secret) == (SealState {
            suite,
            key: labelled(suite, secret, aead_key_len(suite), label_key(), Seq::empty()),
            iv: labelled(suite, secret, 12, label_iv(), Seq::empty()),
            seq: 0,
        }),
        forall|flight: FlightShape|
            flight.suite == suite && flight.server_secret == secret ==> #[trigger] flight_seal(
                flight,
            ) == (SealState { seq: flight.seq, ..application_seal(suite, secret) }),
{
    lemma_labels();
    lemma_expanded(
        suite,
        secret,
        "key"@,
        label_key(),
        Seq::empty(),
        aead_key_len(suite) as nat,
    );
    lemma_expanded(suite, secret, "iv"@, label_iv(), Seq::empty(), 12);
}

/// A Finished message covers a transcript: the HMAC of its hash, under the key that the
/// side's secret gives for it.
pub proof fn finished_covers_the_transcript(suite: CipherSuite, secret: Seq<u8>, hash: Seq<u8>)
    requires
        digests_have_their_length(suite),
    ensures
        finished_data(suite, secret, hash) == keyed(
            suite,
            labelled(suite, secret, digest_len(suite), label_finished(), Seq::empty()),
            hash,
        ),
{
    lemma_labels();
    lemma_expanded(
        suite,
        secret,
        "finished"@,
        label_finished(),
        Seq::empty(),
        digest_len(suite) as nat,
    );
}

/// What an answered flight establishes: data from the server comes under the key of the
/// server's application secret and data to it goes under the client's, both from the
/// master secret and the transcript up to the server's Finished, and both from record
/// zero on. The client's own Finished is a handshake message of type 20, covers the same
/// transcript under the client's handshake secret, and is sealed under that secret's key
/// as handshake record zero.
pub proof fn an_answered_flight_establishes_the_keys(
    connection: ConnectionShape,
    flight: FlightShape,
    records: Seq<u8>,
)
    requires
        digests_have_their_length(flight.suite),
    ensures
        ({
            let suite = flight.suite;
            let n = digest_len(suite);
            let hash = digest(suite, flight.transcript + flight.plaintext);
            let next = established(connection, flight, records);
            let server = labelled(
                suite,
                flight.master_secret,
                n,
                label_server_application(),
                hash,
            );
            let client = labelled(
                suite,
                flight.master_secret,
                n,
                label_client_application(),
                hash,
            );
            let verify = keyed(
                suite,
                labelled(suite, flight.client_secret, n, label_finished(), Seq::empty()),
                hash,
            );
            &&& next.phase is Complete
            &&& next.reading == Some(application_seal(suite, server))
            &&& next.writing == Some(application_seal(suite, client))
            &&& next.outgoing == connection.outgoing + records
            &&& next.received == connection.received && next.incoming == connection.incoming
                && next.pending == connection.pending
            &&& client_finished(flight) == sealed_stream(
                application_seal(suite, flight.client_secret),
                seq![20u8, 0u8, 0u8, n as u8] + verify,
                22,
            )
        }),
{
    let suite = flight.suite;
    let n = digest_len(suite);
    let hash = digest(suite, flight.transcript + flight.plaintext);
    lemma_labels();
    assert(hash.len() == n);
    assert(hash_of(suite, flight.transcript + flight.plaintext) == hash);
    lemma_expanded(
        suite,
        flight.master_secret,
        "s ap traffic"@,
        label_server_application(),
        hash,
        n as nat,
    );
    lemma_expanded(
        suite,
        flight.master_secret,
        "c ap traffic"@,
        label_client_application(),
        hash,
        n as nat,
    );
    finished_covers_the_transcript(suite, flight.client_secret, hash);
    let verify = finished_data(suite, flight.client_secret, hash);
    assert(verify.len() == n);
    assert(crate::reality::messages::handshake_message(20, verify) =~= seq![
        20u8,
        0u8,
        0u8,
        n as u8,
    ] + verify);
}

/// The nonce of a record: the IV with the number of the record, as eight bytes most
/// significant first, over its end.
pub proof fn a_nonce_is_the_iv_over_the_number(iv: Seq<u8>, number: u64)
    requires
        iv.len() == 12,
    ensures
        ({
            let nonce = record_nonce(iv, number);
            &&& nonce.len() == 12
            &&& nonce.take(4) == iv.take(4)
            &&& nonce[4] == iv[4] ^ ((number / 0x100_0000_0000_0000) as u8)
            &&& nonce[5] == iv[5] ^ ((number / 0x1_0000_0000_0000 % 256) as u8)
            &&& nonce[6] == iv[6] ^ ((number / 0x100_0000_0000 % 256) as u8)
            &&& nonce[7] == iv[7] ^ ((number / 0x1_0000_0000 % 256) as u8)
            &&& nonce[8] == iv[8] ^ ((number / 0x100_0000 % 256) as u8)
            &&& nonce[9] == iv[9] ^ ((number / 0x1_0000 % 256) as u8)
            &&& nonce[10] == iv[10] ^ ((number / 256 % 256) as u8)
            &&& nonce[11] == iv[11] ^ ((number % 256) as u8)
        }),
{
    let nonce = record_nonce(iv, number);
    assert forall|i: int| 0 <= i < 4 implies nonce[i] == iv[i] by {
        let byte = iv[i];
        assert(byte ^ 0 == byte) by (bit_vector);
    }
    assert(nonce.take(4) =~= iv.take(4));
    assert((number >> 56) & 0xff == number / 0x100_0000_0000_0000 && (number >> 48) & 0xff
        == number / 0x1_0000_0000_0000 % 256 && (number >> 40) & 0xff == number / 0x100_0000_0000
        % 256 && (number >> 32) & 0xff == number / 0x1_0000_0000 % 256 && (number >> 24) & 0xff
        == number / 0x100_0000 % 256 && (number >> 16) & 0xff == number / 0x1_0000 % 256 && (
    number >> 8) & 0xff == number / 256 % 256 && (number >> 0) & 0xff == number % 256)
        by (bit_vector);
    assert(sequence_byte(number, 4) == ((number >> 56) & 0xff) as u8);
    assert(sequence_byte(number, 5) == ((number >> 48) & 0xff) as u8);
    assert(sequence_byte(number, 6) == ((number >> 40) & 0xff) as u8);
    assert(sequence_byte(number, 7) == ((number >> 32) & 0xff) as u8);
    assert(sequence_byte(number, 8) == ((number >> 24) & 0xff) as u8);
    assert(sequence_byte(number, 9) == ((number >> 16) & 0xff) as u8);
    assert(sequence_byte(number, 10) == ((number >> 8) & 0xff) as u8);
    assert(sequence_byte(number, 11) == ((number >> 0) & 0xff) as u8);
}

/// What a suite's cipher seals.
pub open spec fn sealed_with(
    suite: CipherSuite,
    key: Seq<u8>,
    nonce: Seq<u8>,
    aad: Seq<u8>,
    plaintext: Seq<u8>,
) -> Option<Seq<u8>> {
    match suite {
        CipherSuite::Aes128GcmSha256 => aes_128_gcm_sealed(key, nonce, aad, plaintext),
        CipherSuite::Aes256GcmSha384 => aes_256_gcm_sealed(key, nonce, aad, plaintext),
        CipherSuite::ChaCha20Poly1305Sha256 => chacha20_poly1305_sealed(key, nonce, aad, plaintext),
    }
}

/// What a suite's cipher opens.
pub open spec fn opened_with(
    suite: CipherSuite,
    key: Seq<u8>,
    nonce: Seq<u8>,
    aad: Seq<u8>,
    sealed: Seq<u8>,
) -> Option<Seq<u8>> {
    match suite {
        CipherSuite::Aes128GcmSha256 => aes_128_gcm_opened(key, nonce, aad, sealed),
        CipherSuite::Aes256GcmSha384 => aes_256_gcm_opened(key, nonce, aad, sealed),
        CipherSuite::ChaCha20Poly1305Sha256 => chacha20_poly1305_opened(key, nonce, aad, sealed),
    }
}

/// A record as it is written: the header of application data of TLS 1.2, whose length
/// counts what follows and which the tag covers, and behind it the content with its type
/// in one byte, sealed under the key with the nonce of its number. That sealing adds
/// sixteen bytes is presupposed.
pub proof fn a_record_seals_content_and_type(state: SealState, content: Seq<u8>, kind: u8)
    requires
        content.len() <= 16384,
        forall|aad: Seq<u8>, nonce: Seq<u8>|
            (#[trigger] sealed_with(state.suite, state.key, nonce, aad, content.push(kind)))
                matches Some(sealed) ==> sealed.len() == content.len() + 17,
    ensures
        sealed_record(state, content, kind) matches Ok(record) ==> {
            &&& 0 <= state.seq ==> state.seq < 0xffff_ffff_ffff_ffff
            &&& record.take(3) == seq![23u8, 3u8, 3u8]
            &&& read16(record, 3) == record.len() - 5
            &&& sealed_with(
                state.suite,
                state.key,
                record_nonce(state.iv, state.seq as u64),
                record.take(5),
                content.push(kind),
            ) == Some(record.skip(5))
        },
{
    if let Ok(record) = sealed_record(state, content, kind) {
        let header = sealed_header((content.len() + 17) as u16);
        assert(header =~= seq![23u8, 3u8, 3u8] + be16((content.len() + 17) as u16));
        assert(record.take(5) =~= header);
        assert(record.take(3) =~= seq![23u8, 3u8, 3u8]);
        let sealed = sealed_with(
            state.suite,
            state.key,
            record_nonce(state.iv, state.seq as u64),
            header,
            content.push(kind),
        )->0;
        assert(record.skip(5) =~= sealed);
        assert(record[3] == header[3] && record[4] == header[4]);
    }
}

/// What opening a record gives: under the key with the nonce of the record's number and
/// over the header that declares its length, the content, its type, and any zeros. The
/// type is the last byte that is not zero, and the content is what stands before it.
pub proof fn an_opened_record_is_content_type_and_zeros(
    state: SealState,
    sealed: Seq<u8>,
    declared: u16,
)
    ensures
        opened_record(state, sealed, declared) matches Ok((kind, content)) ==> {
            &&& kind == 21 || kind == 22 || kind == 23
            &&& opened_with(
                state.suite,
                state.key,
                record_nonce(state.iv, state.seq as u64),
                seq![23u8, 3u8, 3u8, (declared / 256) as u8, (declared % 256) as u8],
                sealed,
            ) matches Some(inner)
            &&& content.len() < inner.len()
            &&& inner.take(content.len() as int) == content
            &&& inner[content.len() as int] == kind
            &&& forall|i: int| content.len() < i < inner.len() ==> #[trigger] inner[i] == 0
        },
{
    if let Ok((kind, content)) = opened_record(state, sealed, declared) {
        let header = sealed_header(declared);
        assert(header =~= seq![
            23u8,
            3u8,
            3u8,
            (declared / 256) as u8,
            (declared % 256) as u8,
        ]);
        let inner = opened_with(
            state.suite,
            state.key,
            record_nonce(state.iv, state.seq as u64),
            header,
            sealed,
        )->0;
        lemma_trailing_zeros(inner);
        let kept = without_trailing_zeros(inner);
        assert(content == kept.drop_last());
        assert(inner.take(content.len() as int) =~= content) by {
            assert forall|i: int| 0 <= i < content.len() implies inner[i] == content[i] by {
                assert(kept[i] == inner[i]);
            }
        }
    }
}

proof fn lemma_trailing_zeros(bytes: Seq<u8>)
    ensures
        ({
            let kept = without_trailing_zeros(bytes);
            &&& kept.len() <= bytes.len()
            &&& forall|i: int| 0 <= i < kept.len() ==> #[trigger] kept[i] == bytes[i]
            &&& forall|i: int| kept.len() <= i < bytes.len() ==> #[trigger] bytes[i] == 0
        }),
    decreases bytes.len(),
{
    if bytes.len() > 0 && bytes.last() == 0 {
        lemma_trailing_zeros(bytes.drop_last());
        let front = bytes.drop_last();
        assert forall|i: int|
            without_trailing_zeros(bytes).len() <= i < bytes.len() implies #[trigger] bytes[i]
            == 0 by {
            if i < front.len() {
                assert(front[i] == bytes[i]);
            }
        }
    }
}

/// A close goes out as a warning of type zero, sealed as an alert under the next number.
pub proof fn a_close_is_a_sealed_warning(connection: ConnectionShape)
    requires
        connection.phase is Complete,
        connection.writing is Some,
    ensures
        sealed_record(connection.writing->0, seq![1u8, 0u8], 21) matches Ok(record) ==> closing(
            connection,
        ) == (ConnectionShape {
            outgoing: connection.outgoing + record,
            writing: Some(
                SealState {
                    seq: connection.writing->0.seq + 1,
                    ..connection.writing->0
                },
            ),
            ..connection
        }),
{
    assert(seq![
        crate::reality::common::ALERT_LEVEL_WARNING,
        crate::reality::common::ALERT_DESC_CLOSE_NOTIFY,
    ] =~= seq![1u8, 0u8]);
}

} // verus!
