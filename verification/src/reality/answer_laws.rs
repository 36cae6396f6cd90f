//! What a client reads in a ServerHello, and which answers it goes on with.
use crate::crypto::{ml_kem_decapsulation, x25519_secret_of};
use crate::error::Fault;
use crate::octets::{read16, read24};
use crate::reality::cipher_suite::CipherSuite;
use crate::reality::client_connection::{
    flight_after, negotiated, server_hello_step, ConnectionShape, PhaseShape,
};
use crate::reality::handshake::retry_random;
use crate::reality::hello_laws::{split_extensions, Extension};
use crate::reality::hello_profile::{negotiable_suites, CipherSuiteSlot, ProfileShape};
use crate::reality::key_exchange::{completed, share_for, ExchangeShape};
use crate::reality::group::NamedGroup;
use crate::reality::server_hello::{extension_of, find_extension, parsed_share};
use vstd::prelude::*;

verus! {

/// The body of the first extension of a type.
pub open spec fn first_of(extensions: Seq<Extension>, wanted: u16) -> Option<Seq<u8>>
    decreases extensions.len(),
{
    if extensions.len() == 0 {
        None
    } else if extensions[0].0 == wanted {
        Some(extensions[0].1)
    } else {
        first_of(extensions.drop_first(), wanted)
    }
}

proof fn lemma_found(hello: Seq<u8>, at: int, wanted: u16)
    requires
        0 <= at <= hello.len(),
        split_extensions(hello.skip(at)) is Some,
    ensures
        match first_of(split_extensions(hello.skip(at))->0, wanted) {
            None => find_extension(hello, at, hello.len() as int, wanted) == Ok::<
                Option<(int, int)>,
                Fault,
            >(None),
            Some(body) => find_extension(hello, at, hello.len() as int, wanted) matches Ok(
                Some((from, to)),
            ) && 0 <= from <= to <= hello.len() && hello.subrange(from, to) == body,
        },
    decreases hello.len() - at,
{
    let block = hello.skip(at);
    if at < hello.len() {
        let end = 4 + read16(block, 2);
        assert(read16(block, 2) == read16(hello, at + 2));
        assert(read16(block, 0) == read16(hello, at));
        assert(block.skip(end) =~= hello.skip(at + end));
        assert(block.subrange(4, end) =~= hello.subrange(at + 4, at + end));
        let others = split_extensions(block.skip(end))->0;
        let all = split_extensions(block)->0;
        assert(all.drop_first() =~= others);
        lemma_found(hello, at + end, wanted);
    }
}

/// The extensions of a ServerHello with a session id of 32 bytes, where they fill it: its
/// readers find the first of each type.
pub proof fn the_first_extension_of_a_type_counts(hello: Seq<u8>, wanted: u16)
    requires
        hello.len() >= 76,
        hello[38] == 32,
        read16(hello, 74) == hello.len() - 76,
        split_extensions(hello.skip(76)) is Some,
    ensures
        extension_of(hello, wanted) == Ok::<Option<Seq<u8>>, Fault>(
            first_of(split_extensions(hello.skip(76))->0, wanted),
        ),
{
    lemma_found(hello, 76, wanted);
}

/// The suite of a code point.
pub open spec fn suite_with(code: int) -> Option<CipherSuite> {
    if code == 0x1301 {
        Some(CipherSuite::Aes128GcmSha256)
    } else if code == 0x1302 {
        Some(CipherSuite::Aes256GcmSha384)
    } else if code == 0x1303 {
        Some(CipherSuite::ChaCha20Poly1305Sha256)
    } else {
        None
    }
}

/// The random that stands for a request to try again.
pub open spec fn try_again() -> Seq<u8> {
    seq![
        207u8, 33u8, 173u8, 116u8, 229u8, 154u8, 97u8, 17u8, 190u8, 29u8, 140u8, 2u8, 30u8, 101u8,
        184u8, 145u8, 194u8, 162u8, 17u8, 22u8, 122u8, 187u8, 140u8, 94u8, 7u8, 158u8, 9u8, 226u8,
        200u8, 168u8, 51u8, 156u8,
    ]
}

/// Whether a share of the server and the client's exchange agree on a secret: X25519, or
/// ML-KEM-768 followed by X25519, each behind its code point and its length.
pub open spec fn agrees(share: Seq<u8>, exchange: ExchangeShape, secret: Seq<u8>) -> bool {
    &&& share.len() >= 4
    &&& share.len() >= 4 + read16(share, 2)
    &&& {
        ||| {
            &&& read16(share, 0) == 29
            &&& read16(share, 2) == 32
            &&& x25519_secret_of(exchange.x25519_private, share.subrange(4, 36)) == Ok::<
                Seq<u8>,
                u8,
            >(secret)
            &&& secret.len() == 32
        }
        ||| {
            &&& read16(share, 0) == 4588
            &&& read16(share, 2) == 1120
            &&& exchange.hybrid matches Some(hybrid)
            &&& ml_kem_decapsulation(hybrid.ml_kem, share.subrange(4, 1092)) matches Some(first)
            &&& x25519_secret_of(hybrid.x25519_private, share.subrange(1092, 1124)) matches Ok(
                second,
            )
            &&& first.len() == 32 && second.len() == 32
            &&& secret == first + second
        }
    }
}

/// Whether a ServerHello is an answer that a client goes on with: a ServerHello of TLS
/// 1.2 by its header that counts itself, echoes the session id, is no request to try
/// again, negotiates TLS 1.3 and a suite that the table offers as negotiable, and carries
/// a share that agrees with the client's exchange on a secret.
pub open spec fn is_answer(
    profile: ProfileShape,
    client_hello: Seq<u8>,
    exchange: ExchangeShape,
    hello: Seq<u8>,
    suite: CipherSuite,
    secret: Seq<u8>,
) -> bool {
    &&& hello[0] == 2 && read24(hello, 1) == hello.len() - 4
    &&& hello[4] == 3 && hello[5] == 3
    &&& hello.subrange(6, 38) != try_again()
    &&& hello.subrange(39, 71) == client_hello.subrange(39, 71)
    &&& suite_with(read16(hello, 71)) == Some(suite)
    &&& profile.cipher_suites.contains(CipherSuiteSlot::Negotiable(read16(hello, 71) as u16))
    &&& split_extensions(hello.skip(76)) matches Some(extensions)
    &&& first_of(extensions, 43) matches Some(version)
    &&& version.len() >= 2 && version[0] == 3 && version[1] == 4
    &&& first_of(extensions, 51) matches Some(share)
    &&& agrees(share, exchange, secret)
}

proof fn lemma_negotiable(slots: Seq<CipherSuiteSlot>, n: nat, suite: CipherSuite, code: u16)
    requires
        n <= slots.len(),
        suite_with(code as int) == Some(suite),
    ensures
        negotiable_suites(slots, n).contains(suite) <==> slots.take(n as int).contains(
            CipherSuiteSlot::Negotiable(code),
        ),
    decreases n,
{
    let wanted = CipherSuiteSlot::Negotiable(code);
    let front = slots.take(n as int);
    if n > 0 {
        lemma_negotiable(slots, (n - 1) as nat, suite, code);
        let before = negotiable_suites(slots, (n - 1) as nat);
        let all = negotiable_suites(slots, n);
        let shorter = slots.take(n - 1);
        assert(front =~= shorter.push(slots[n - 1]));
        if front.contains(wanted) {
            if slots[n - 1] == wanted {
                assert(all == before.push(suite));
                assert(all[before.len() as int] == suite);
            } else {
                let i = front.index_of(wanted);
                assert(shorter[i] == wanted);
                let j = before.index_of(suite);
                assert(all[j] == suite);
            }
        }
        if all.contains(suite) {
            let j = all.index_of(suite);
            if j < before.len() {
                assert(before[j] == suite);
                let i = shorter.index_of(wanted);
                assert(front[i] == wanted);
            } else {
                assert(slots[n - 1] == wanted);
                assert(front[n - 1] == wanted);
            }
        }
    } else {
        assert(negotiable_suites(slots, n).len() == 0);
    }
}

proof fn lemma_share(share: Seq<u8>, exchange: ExchangeShape, secret: Seq<u8>)
    ensures
        agrees(share, exchange, secret) <==> (parsed_share(share) matches Ok(parsed) && completed(
            exchange,
            parsed,
        ) == Ok::<Seq<u8>, Fault>(secret)),
{
    if let Ok(parsed) = parsed_share(share) {
        if let Ok(found) = completed(exchange, parsed) {
            if read16(share, 0) == 4588 {
                let hybrid = exchange.hybrid->0;
                let first = ml_kem_decapsulation(hybrid.ml_kem, share.subrange(4, 1092))->0;
                let second = x25519_secret_of(
                    hybrid.x25519_private,
                    share.subrange(1092, 1124),
                )->Ok_0;
                assert(second.len() == 32);
                assert(first.len() == 32);
            }
        }
    }
}

/// A client goes on with an answer and with nothing else, and what it goes on with is the
/// flight under the secrets of the negotiated suite, the agreed secret and the transcript
/// of both hellos. The extensions are taken to fill the message.
pub proof fn only_an_answer_is_gone_on_with(
    profile: ProfileShape,
    client_hello: Seq<u8>,
    exchange: ExchangeShape,
    auth_key: Seq<u8>,
    hello: Seq<u8>,
)
    requires
        client_hello.len() >= 71,
        hello.len() >= 76,
        hello[38] == 32,
        read16(hello, 74) == hello.len() - 76,
        split_extensions(hello.skip(76)) is Some,
    ensures
        negotiated(profile, client_hello, exchange, auth_key, hello) matches Ok(flight)
            ==> exists|secret: Seq<u8>| #[trigger]
            is_answer(profile, client_hello, exchange, hello, flight.suite, secret) && flight
                == flight_after(flight.suite, secret, client_hello + hello, auth_key),
        forall|suite: CipherSuite, secret: Seq<u8>| #[trigger]
            is_answer(profile, client_hello, exchange, hello, suite, secret) ==> negotiated(
                profile,
                client_hello,
                exchange,
                auth_key,
                hello,
            ) == Ok::<crate::reality::handshake::FlightShape, Fault>(
                flight_after(suite, secret, client_hello + hello, auth_key),
            ),
{
    let extensions = split_extensions(hello.skip(76))->0;
    the_first_extension_of_a_type_counts(hello, 43);
    the_first_extension_of_a_type_counts(hello, 51);
    assert(retry_random() =~= try_again());
    let suites = profile.cipher_suites;
    assert(suites.take(suites.len() as int) =~= suites);
    let code = read16(hello, 71) as u16;
    if suite_with(code as int) is Some {
        lemma_negotiable(suites, suites.len(), suite_with(code as int)->0, code);
    }
    if let Ok(flight) = negotiated(profile, client_hello, exchange, auth_key, hello) {
        let share = first_of(extensions, 51)->0;
        let parsed = parsed_share(share)->Ok_0;
        let secret = completed(exchange, parsed)->Ok_0;
        lemma_share(share, exchange, secret);
        let version = first_of(extensions, 43)->0;
        assert(version[0] * 256 + version[1] == 0x0304);
        assert(is_answer(profile, client_hello, exchange, hello, flight.suite, secret));
    }
    assert forall|suite: CipherSuite, secret: Seq<u8>| #[trigger]
        is_answer(profile, client_hello, exchange, hello, suite, secret) implies negotiated(
        profile,
        client_hello,
        exchange,
        auth_key,
        hello,
    ) == Ok::<crate::reality::handshake::FlightShape, Fault>(
        flight_after(suite, secret, client_hello + hello, auth_key),
    ) by {
        let share = first_of(extensions, 51)->0;
        lemma_share(share, exchange, secret);
    }
}

/// The record of a ServerHello: a handshake record of TLS 1.2 whose body is the message.
/// A client that awaits it takes the record off what came in, whole or not at all.
pub proof fn the_answer_comes_in_one_record(connection: ConnectionShape)
    requires
        connection.phase is AwaitingServerHello,
    ensures
        ({
            let incoming = connection.incoming;
            let length = read16(incoming, 3);
            let (result, next) = server_hello_step(connection);
            &&& next.phase is ProcessingHandshake ==> {
                &&& incoming.take(3) == seq![22u8, 3u8, 3u8]
                &&& incoming.len() >= 5 + length
                &&& length <= 16640
                &&& next.incoming == incoming.skip(5 + length)
                &&& connection.phase matches PhaseShape::AwaitingServerHello {
                    client_hello,
                    key_exchange,
                    auth_key,
                }
                &&& negotiated(
                    connection.profile,
                    client_hello,
                    key_exchange,
                    auth_key,
                    incoming.subrange(5, 5 + length),
                ) matches Ok(flight) && next.phase == PhaseShape::ProcessingHandshake(flight)
            }
            &&& !(next.phase is Complete)
            &&& next.received == connection.received && next.outgoing == connection.outgoing
        }),
{
    let incoming = connection.incoming;
    let length = read16(incoming, 3);
    let (result, next) = server_hello_step(connection);
    if next.phase is ProcessingHandshake {
        assert(read16(incoming, 1) == 0x0303);
        assert(incoming[1] == 3 && incoming[2] == 3);
        assert(incoming.take(3) =~= seq![22u8, 3u8, 3u8]);
        assert(incoming.skip(5 + length) =~= incoming.subrange(
            5 + length,
            incoming.len() as int,
        ));
    }
}

/// The share that an exchange sends for a group: its own key for X25519, the point for
/// P-256, and for the hybrid the encapsulation key with the X25519 key behind it. No other
/// group has one.
pub proof fn each_group_has_its_share(exchange: ExchangeShape)
    ensures
        share_for(exchange, NamedGroup::X25519) == Some(exchange.x25519_public),
        exchange.hybrid matches Some(hybrid) ==> share_for(exchange, NamedGroup::X25519MlKem768)
            == Some(hybrid.encapsulation_key + hybrid.x25519_public),
        exchange.hybrid is None ==> share_for(exchange, NamedGroup::X25519MlKem768) is None,
        exchange.p256 matches Some(p256) ==> share_for(exchange, NamedGroup::Secp256r1) == Some(
            p256.public,
        ),
        exchange.p256 is None ==> share_for(exchange, NamedGroup::Secp256r1) is None,
        share_for(exchange, NamedGroup::Secp384r1) is None,
        share_for(exchange, NamedGroup::Secp521r1) is None,
        share_for(exchange, NamedGroup::Ffdhe2048) is None,
        share_for(exchange, NamedGroup::Ffdhe3072) is None,
{
}

} // verus!
