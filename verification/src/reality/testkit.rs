//! A REALITY server small enough to test a client against: it reads the client's
//! hello, derives the same authentication key, and answers with a flight that a
//! client accepts.
use crate::crypto::{
    ed25519_pkcs8, ed25519_pkcs8_of, ed25519_public, ed25519_public_of, ed25519_sign, ed25519_signature_of,
    ed25519_verifies, hmac_sha512, hmac_sha512_of, self_signed, self_signed_of, x25519_agree,
    x25519_public, x25519_public_of, x25519_secret_of,
};
use crate::error::{invalid_data, ErrorKind, Fault, WireError};
use crate::octets::{
    be16, be24, bytes_equal, copy_array, copy_range, get_u16, lemma_read_be24, push_bytes, push_u16,
    read16, read24, to_vec,
};
use crate::random::random_bytes;
use crate::reality::auth::{
    auth_key_of, certificate_in, certificate_key, certificate_verdict, certificate_verify_content,
    derive_auth_key, ed25519_key_from, extract_ed25519_public_key, key_marked_at, signed_content,
    verify_signature_in,
};
use crate::reality::cipher_suite::CipherSuite;
use crate::reality::client_connection::flight_after;
use crate::reality::client_hello::KEY_SHARE;
use crate::reality::common::{
    CONTENT_TYPE_APPLICATION_DATA, CONTENT_TYPE_HANDSHAKE, HANDSHAKE_TYPE_CERTIFICATE,
    HANDSHAKE_TYPE_CERTIFICATE_VERIFY, HANDSHAKE_TYPE_ENCRYPTED_EXTENSIONS, HANDSHAKE_TYPE_FINISHED,
    HANDSHAKE_TYPE_SERVER_HELLO,
};
use crate::reality::handshake::{
    after_content, after_message, after_messages, expected_type, flight_verdict, next_message_end,
    FlightShape,
};
use crate::reality::key_schedule::{
    compute_finished_verify_data, derive_application_secrets, derive_handshake_keys,
    derive_traffic_keys, derived_secret, finished_data, handshake_secret, hash_of,
    master_secret_of, traffic_iv, traffic_key, transcript_hash,
};
use crate::reality::messages::{
    certificate_body, construct_certificate, construct_encrypted_extensions, construct_finished,
    construct_server_hello, handshake_message, message_of, server_hello_body,
    INITIAL_RECORD_VERSION,
};
use crate::reality::prepared_hello::auth_info;
use crate::reality::records::{
    lemma_streams_join, opened_record, opened_stream, sealed_prefix, sealed_stream, AeadKey,
    RecordDecryptor, RecordEncryptor, SealState,
};
use crate::text::text_of;
use vstd::prelude::*;
use vstd::slice::slice_subrange;
use vstd::string::*;

verus! {

/// The record version that a client's first record is seen with.
pub fn observed_initial_record_version() -> (version: [u8; 2])
    ensures
        version@ == INITIAL_RECORD_VERSION@,
{
    INITIAL_RECORD_VERSION
}

/// What a server reads out of a client's hello.
pub struct ParsedClientHello {
    pub cipher_suite: CipherSuite,
    pub client_x25519: [u8; 32],
    pub session_id: [u8; 32],
    pub auth_key: [u8; 32],
}

/// What a parsed hello holds.
pub struct ParsedShape {
    pub cipher_suite: CipherSuite,
    pub client_x25519: Seq<u8>,
    pub session_id: Seq<u8>,
    pub auth_key: Seq<u8>,
}

impl View for ParsedClientHello {
    type V = ParsedShape;

    open spec fn view(&self) -> ParsedShape {
        ParsedShape {
            cipher_suite: self.cipher_suite,
            client_x25519: self.client_x25519@,
            session_id: self.session_id@,
            auth_key: self.auth_key@,
        }
    }
}

/// The header of a record of this type and length.
pub fn record_header(content_type: u8, length: usize) -> (header: Vec<u8>)
    ensures
        header@ == seq![content_type, 0x03u8, 0x03u8] + be16((length % 65536) as u16),
{
    let mut header: Vec<u8> = vec![content_type, 0x03, 0x03];
    push_u16(&mut header, (length % 65536) as u16);
    assert(header@ =~= seq![content_type, 0x03u8, 0x03u8] + be16((length % 65536) as u16));
    header
}

/// The fault of a length that is not there.
pub open spec fn cut_length() -> Fault {
    invalid_data("truncated while reading a length"@)
}

fn length_at(bytes: &[u8], at: usize) -> (result: Result<u16, WireError>)
    ensures
        if at + 2 <= bytes@.len() {
            result matches Ok(value) && value == read16(bytes@, at as int)
        } else {
            result matches Err(error) && error@ == cut_length()
        },
{
    if bytes.len() < 2 || at > bytes.len() - 2 {
        return Err(WireError::new(ErrorKind::InvalidData, "truncated while reading a length"));
    }
    Ok(get_u16(bytes, at))
}

/// The X25519 share among the entries of a share list from `at` up to `end`.
pub open spec fn share_entry(body: Seq<u8>, at: int, end: int) -> Option<Seq<u8>>
    decreases end - at,
{
    if at + 4 > end || at < 0 {
        None
    } else {
        let next = at + 4 + read16(body, at + 2);
        if next > end {
            None
        } else if read16(body, at) == 0x001d && read16(body, at + 2) == 32 {
            Some(body.subrange(at + 4, next))
        } else {
            share_entry(body, next, end)
        }
    }
}

/// The X25519 share of a key share extension.
pub open spec fn x25519_share_in(body: Seq<u8>) -> Result<Option<Seq<u8>>, Fault> {
    if body.len() < 2 {
        Err(cut_length())
    } else {
        let end = if 2 + read16(body, 0) < body.len() {
            2 + read16(body, 0)
        } else {
            body.len() as int
        };
        Ok(share_entry(body, 2, end))
    }
}

fn find_x25519_share(body: &[u8]) -> (result: Result<Option<[u8; 32]>, WireError>)
    ensures
        match x25519_share_in(body@) {
            Ok(Some(share)) => result matches Ok(Some(actual)) && actual@ == share,
            Ok(None) => result matches Ok(None),
            Err(fault) => result matches Err(error) && error@ == fault,
        },
{
    let list_len = match length_at(body, 0) {
        Ok(length) => length as usize,
        Err(error) => {
            return Err(error);
        },
    };
    let end: usize = if 2 + list_len < body.len() {
        2 + list_len
    } else {
        body.len()
    };
    let mut at: usize = 2;
    while at <= end && end - at >= 4
        invariant
            2 <= at,
            end <= body@.len(),
            x25519_share_in(body@) == Ok::<Option<Seq<u8>>, Fault>(
                share_entry(body@, at as int, end as int),
            ),
        decreases end - at,
    {
        let group = get_u16(body, at);
        let length = get_u16(body, at + 2) as usize;
        if length > end - at - 4 {
            return Ok(None);
        }
        if group == 0x001d && length == 32 {
            return Ok(Some(copy_array(slice_subrange(body, at + 4, at + 4 + length))));
        }
        at = at + 4 + length;
    }
    Ok(None)
}

/// The X25519 share of the last key share among the extensions from `at` up to
/// `end`; `found` is what stands before.
pub open spec fn share_in_extensions(
    hello: Seq<u8>,
    at: int,
    end: int,
    found: Option<Seq<u8>>,
) -> Result<Option<Seq<u8>>, Fault>
    decreases end - at,
{
    if at + 4 > end || at < 0 {
        Ok(found)
    } else {
        let next = at + 4 + read16(hello, at + 2);
        if next > end {
            Err(invalid_data("extension runs past the list"@))
        } else if read16(hello, at) == KEY_SHARE {
            match x25519_share_in(hello.subrange(at + 4, next)) {
                Err(fault) => Err(fault),
                Ok(share) => share_in_extensions(hello, next, end, share),
            }
        } else {
            share_in_extensions(hello, next, end, found)
        }
    }
}

/// An optional share.
pub open spec fn share_shape(share: Option<[u8; 32]>) -> Option<Seq<u8>> {
    match share {
        Some(bytes) => Some(bytes@),
        None => None,
    }
}

fn find_share(hello: &[u8], start: usize, end: usize) -> (result: Result<
    Option<[u8; 32]>,
    WireError,
>)
    requires
        start <= end <= hello@.len(),
    ensures
        match share_in_extensions(hello@, start as int, end as int, None) {
            Ok(share) => result matches Ok(actual) && share_shape(actual) == share,
            Err(fault) => result matches Err(error) && error@ == fault,
        },
{
    let mut found: Option<[u8; 32]> = None;
    let mut at: usize = start;
    while end - at >= 4
        invariant
            start <= at <= end <= hello@.len(),
            share_in_extensions(hello@, start as int, end as int, None) == share_in_extensions(
                hello@,
                at as int,
                end as int,
                share_shape(found),
            ),
        decreases end - at,
    {
        let extension_type = get_u16(hello, at);
        let length = get_u16(hello, at + 2) as usize;
        if length > end - at - 4 {
            return Err(WireError::new(ErrorKind::InvalidData, "extension runs past the list"));
        }
        if extension_type == KEY_SHARE {
            match find_x25519_share(slice_subrange(hello, at + 4, at + 4 + length)) {
                Ok(share) => {
                    found = share;
                },
                Err(error) => {
                    return Err(error);
                },
            }
        }
        at = at + 4 + length;
    }
    Ok(found)
}

/// The first implemented suite among the `count` that stand from `at` on.
pub open spec fn first_suite(hello: Seq<u8>, at: int, count: int) -> Option<CipherSuite>
    decreases count,
{
    if count <= 0 {
        None
    } else {
        match CipherSuite::spec_from_id(read16(hello, at) as u16) {
            Some(suite) => Some(suite),
            None => first_suite(hello, at + 2, count - 1),
        }
    }
}

fn find_suite(hello: &[u8], start: usize, count: usize) -> (suite: Option<CipherSuite>)
    requires
        start + 2 * count <= hello@.len(),
    ensures
        suite == first_suite(hello@, start as int, count as int),
{
    let mut i: usize = 0;
    while i < count
        invariant
            i <= count,
            start + 2 * count <= hello.len(),
            first_suite(hello@, start as int, count as int) == first_suite(
                hello@,
                start + 2 * i,
                count - i,
            ),
        decreases count - i,
    {
        let suite = CipherSuite::from_id(get_u16(hello, start + 2 * i));
        if suite.is_some() {
            return suite;
        }
        i = i + 1;
    }
    None
}

/// Where the lists of a hello stand: the suites, their count, and the extensions
/// from their start to their end.
pub open spec fn hello_lists(hello: Seq<u8>) -> Result<(int, int, int), Fault> {
    if hello.len() < 73 {
        Err(cut_length())
    } else {
        let suites = read16(hello, 71);
        if 73 + 2 * (suites / 2) > hello.len() {
            Err(cut_length())
        } else if 73 + suites >= hello.len() {
            Err(invalid_data("truncated"@))
        } else {
            let after = 74 + suites + hello[73 + suites];
            if after + 2 > hello.len() {
                Err(cut_length())
            } else if after + 2 + read16(hello, after) > hello.len() {
                Err(invalid_data("extensions run past the ClientHello"@))
            } else {
                Ok((suites / 2, after + 2, after + 2 + read16(hello, after)))
            }
        }
    }
}

fn find_lists(hello: &[u8]) -> (result: Result<(usize, usize, usize), WireError>)
    requires
        hello@.len() >= 71,
    ensures
        match hello_lists(hello@) {
            Ok((count, start, end)) => result matches Ok(lists) && lists.0 == count && lists.1
                == start && lists.2 == end && 73 + 2 * lists.0 <= hello@.len() && lists.1 <= lists.2
                <= hello@.len(),
            Err(fault) => result matches Err(error) && error@ == fault,
        },
{
    let suites = match length_at(hello, 71) {
        Ok(length) => length as usize,
        Err(error) => {
            return Err(error);
        },
    };
    if 73 + 2 * (suites / 2) > hello.len() {
        return Err(WireError::new(ErrorKind::InvalidData, "truncated while reading a length"));
    }
    if 73 + suites >= hello.len() {
        return Err(WireError::new(ErrorKind::InvalidData, "truncated"));
    }
    let after = 74 + suites + hello[73 + suites] as usize;
    let extensions = match length_at(hello, after) {
        Ok(length) => length as usize,
        Err(error) => {
            return Err(error);
        },
    };
    let start = after + 2;
    if extensions > hello.len() - start {
        return Err(WireError::new(ErrorKind::InvalidData, "extensions run past the ClientHello"));
    }
    Ok((suites / 2, start, start + extensions))
}

/// What a server makes of a hello: its first suite, its X25519 share, its session
/// id, and the authentication key that the share and the server's key agree on.
pub open spec fn parsed_hello(hello: Seq<u8>, server_private: Seq<u8>) -> Result<
    ParsedShape,
    Fault,
> {
    if hello.len() == 0 || hello[0] != 1 {
        Err(invalid_data("not a ClientHello"@))
    } else if hello.len() < 71 {
        Err(invalid_data("ClientHello is too short"@))
    } else {
        match hello_lists(hello) {
            Err(fault) => Err(fault),
            Ok((count, start, end)) => match share_in_extensions(hello, start, end, None) {
                Err(fault) => Err(fault),
                Ok(None) => Err(invalid_data("no x25519 key share in ClientHello"@)),
                Ok(Some(share)) => match first_suite(hello, 73, count) {
                    None => Err(invalid_data("ClientHello offers no TLS 1.3 cipher suite"@)),
                    Some(cipher_suite) => match x25519_secret_of(server_private, share) {
                        Ok(secret) if secret.len() == 32 => Ok(
                            ParsedShape {
                                cipher_suite,
                                client_x25519: share,
                                session_id: hello.subrange(39, 71),
                                auth_key: auth_key_of(secret, hello.subrange(6, 26), auth_info()),
                            },
                        ),
                        _ => Err(invalid_data("REALITY ECDH against the client share failed"@)),
                    },
                },
            },
        }
    }
}

/// Read a client's hello.
pub fn parse_client_hello(hello: &[u8], server_private: &[u8; 32]) -> (result: Result<
    ParsedClientHello,
    WireError,
>)
    ensures
        match parsed_hello(hello@, server_private@) {
            Ok(shape) => result matches Ok(parsed) && parsed@ == shape,
            Err(fault) => result matches Err(error) && error@ == fault,
        },
{
    if hello.len() == 0 || hello[0] != 0x01 {
        return Err(WireError::new(ErrorKind::InvalidData, "not a ClientHello"));
    }
    if hello.len() < 71 {
        return Err(WireError::new(ErrorKind::InvalidData, "ClientHello is too short"));
    }
    let (count, start, end) = match find_lists(hello) {
        Ok(lists) => lists,
        Err(error) => {
            return Err(error);
        },
    };
    let client_x25519 = match find_share(hello, start, end) {
        Ok(Some(share)) => share,
        Ok(None) => {
            return Err(
                WireError::new(ErrorKind::InvalidData, "no x25519 key share in ClientHello"),
            );
        },
        Err(error) => {
            return Err(error);
        },
    };
    let cipher_suite = match find_suite(hello, 73, count) {
        Some(suite) => suite,
        None => {
            return Err(
                WireError::new(
                    ErrorKind::InvalidData,
                    "ClientHello offers no TLS 1.3 cipher suite",
                ),
            );
        },
    };
    let secret: [u8; 32] = match x25519_agree(
        server_private.as_slice(),
        client_x25519.as_slice(),
    ) {
        Ok(secret) if secret.len() == 32 => copy_array(secret.as_slice()),
        _ => {
            return Err(
                WireError::new(
                    ErrorKind::InvalidData,
                    "REALITY ECDH against the client share failed",
                ),
            );
        },
    };
    let info: [u8; 7] = [82, 69, 65, 76, 73, 84, 89];
    assert(info@ =~= auth_info());
    let auth_key = derive_auth_key(&secret, slice_subrange(hello, 6, 26), info.as_slice());
    Ok(
        ParsedClientHello {
            cipher_suite,
            client_x25519,
            session_id: copy_array(slice_subrange(hello, 39, 71)),
            auth_key,
        },
    )
}

/// The fault of a step that should never fail.
pub open spec fn other_fault(message: Seq<char>) -> Fault {
    (ErrorKind::Other, message)
}

/// The ServerHello that a server random and a private key answer a hello with,
/// and the secret that the two ends then share.
pub open spec fn answered(
    parsed: ParsedShape,
    server_random: Seq<u8>,
    private: Seq<u8>,
) -> Result<(Seq<u8>, Seq<u8>), Fault> {
    match x25519_public_of(private) {
        Err(step) => if step == 0 {
            Err(other_fault("ephemeral key"@))
        } else {
            Err(other_fault("ephemeral public key"@))
        },
        Ok(public) => match x25519_secret_of(private, parsed.client_x25519) {
            Ok(secret) if secret.len() == 32 && public.len() == 32 => Ok(
                (
                    handshake_message(
                        HANDSHAKE_TYPE_SERVER_HELLO,
                        server_hello_body(
                            server_random,
                            parsed.session_id,
                            parsed.cipher_suite.spec_id(),
                            public,
                        ),
                    ),
                    secret,
                ),
            ),
            _ => Err(other_fault("handshake ECDH failed"@)),
        },
    }
}

/// Answer a hello with a server random and a private key that are at hand.
pub fn answer_hello(parsed: &ParsedClientHello, server_random: &[u8; 32], private: &[u8; 32]) -> (result:
    Result<(Vec<u8>, [u8; 32]), WireError>)
    ensures
        match answered(parsed@, server_random@, private@) {
            Ok((hello, secret)) => result matches Ok(actual) && actual.0@ == hello && actual.1@
                == secret,
            Err(fault) => result matches Err(error) && error@ == fault,
        },
{
    let public = match x25519_public(private.as_slice()) {
        Ok(public) => public,
        Err(step) => {
            if step == 0 {
                return Err(WireError::new(ErrorKind::Other, "ephemeral key"));
            }
            return Err(WireError::new(ErrorKind::Other, "ephemeral public key"));
        },
    };
    let secret: [u8; 32] = match x25519_agree(
        private.as_slice(),
        parsed.client_x25519.as_slice(),
    ) {
        Ok(secret) if secret.len() == 32 && public.len() == 32 => copy_array(secret.as_slice()),
        _ => {
            return Err(WireError::new(ErrorKind::Other, "handshake ECDH failed"));
        },
    };
    match construct_server_hello(
        server_random,
        parsed.session_id.as_slice(),
        parsed.cipher_suite.id(),
        public.as_slice(),
    ) {
        Ok(hello) => Ok((hello, secret)),
        Err(error) => Err(error),
    }
}

/// Answer a hello with fresh keys. Whatever they are, the answer is the one that
/// they make.
pub fn build_server_hello(parsed: &ParsedClientHello) -> (result: Result<
    (Vec<u8>, [u8; 32]),
    WireError,
>)
    ensures
        exists|server_random: [u8; 32], private: [u8; 32]|
            match #[trigger] answered(parsed@, server_random@, private@) {
                Ok((hello, secret)) => result matches Ok(actual) && actual.0@ == hello
                    && actual.1@ == secret,
                Err(fault) => result matches Err(error) && error@ == fault,
            },
{
    let server_random: [u8; 32] = random_bytes();
    let private: [u8; 32] = random_bytes();
    answer_hello(parsed, &server_random, &private)
}

/// A certificate bound to an authentication key: its signature field, the last 64
/// bytes, becomes the HMAC of its public key.
pub open spec fn bound_certificate(der: Seq<u8>, auth_key: Seq<u8>) -> Result<Seq<u8>, Fault> {
    if der.len() < 64 {
        Err(invalid_data("certificate is too short to carry a signature"@))
    } else {
        let front = der.subrange(0, der.len() - 64);
        match certificate_key(front) {
            Err(fault) => Err(fault),
            Ok(key) => Ok(front + hmac_sha512_of(auth_key, key)),
        }
    }
}

/// Bind a certificate to an authentication key.
pub fn bind_certificate(der: &[u8], auth_key: &[u8; 32]) -> (result: Result<Vec<u8>, WireError>)
    ensures
        match bound_certificate(der@, auth_key@) {
            Ok(bound) => result matches Ok(actual) && actual@ == bound && actual@.len()
                == der@.len(),
            Err(fault) => result matches Err(error) && error@ == fault,
        },
{
    if der.len() < 64 {
        return Err(
            WireError::new(
                ErrorKind::InvalidData,
                "certificate is too short to carry a signature",
            ),
        );
    }
    let mut bound = copy_range(der, 0, der.len() - 64);
    match extract_ed25519_public_key(bound.as_slice()) {
        Err(error) => Err(error),
        Ok(key) => {
            let tag = hmac_sha512(auth_key.as_slice(), key.as_slice());
            push_bytes(&mut bound, tag.as_slice());
            Ok(bound)
        },
    }
}

/// The certificate that a seed's key makes for a name, bound to an
/// authentication key.
pub open spec fn seeded_certificate(
    auth_key: Seq<u8>,
    server_name: Seq<char>,
    seed: Seq<u8>,
) -> Result<Seq<u8>, Fault> {
    match ed25519_pkcs8_of(seed) {
        None => Err(other_fault("cannot make an Ed25519 key"@)),
        Some(document) => match self_signed_of(document, server_name) {
            None => Err(other_fault("cannot make a certificate"@)),
            Some(der) => match bound_certificate(der, auth_key) {
                Err(fault) => Err(fault),
                Ok(bound) => if ed25519_public_of(seed) is Some && certificate_key(bound) == Ok::<
                    Seq<u8>,
                    Fault,
                >(ed25519_public_of(seed)->0) {
                    Ok(bound)
                } else {
                    Err(other_fault("certificate does not carry its key"@))
                },
            },
        },
    }
}

/// Make a certificate with the key of a seed, bound to an authentication key. It
/// verifies under that key, and shows the seed's public key.
pub fn certificate_from_seed(auth_key: &[u8; 32], server_name: &str, seed: &[u8; 32]) -> (result:
    Result<Vec<u8>, WireError>)
    ensures
        match seeded_certificate(auth_key@, server_name@, seed@) {
            Ok(der) => result matches Ok(actual) && actual@ == der,
            Err(fault) => result matches Err(error) && error@ == fault,
        },
        result matches Ok(der) ==> shows_key(der@, auth_key@, seed@),
{
    let document = match ed25519_pkcs8(seed.as_slice()) {
        Some(document) => document,
        None => {
            return Err(WireError::new(ErrorKind::Other, "cannot make an Ed25519 key"));
        },
    };
    let bound = match self_signed(document.as_slice(), server_name) {
        Some(der) => match bind_certificate(der.as_slice(), auth_key) {
            Ok(bound) => {
                proof {
                    a_bound_certificate_verifies(der@, auth_key@);
                }
                bound
            },
            Err(error) => {
                return Err(error);
            },
        },
        None => {
            return Err(WireError::new(ErrorKind::Other, "cannot make a certificate"));
        },
    };
    if let Some(public) = ed25519_public(seed.as_slice()) {
        if let Ok(key) = extract_ed25519_public_key(bound.as_slice()) {
            if bytes_equal(key.as_slice(), public.as_slice()) {
                return Ok(bound);
            }
        }
    }
    Err(WireError::new(ErrorKind::Other, "certificate does not carry its key"))
}

/// Whether a certificate verifies under an authentication key and shows the
/// public key of a seed.
pub open spec fn shows_key(der: Seq<u8>, auth_key: Seq<u8>, seed: Seq<u8>) -> bool {
    &&& certificate_verdict(der, auth_key) is Ok
    &&& ed25519_public_of(seed) matches Some(public) && certificate_key(der) == Ok::<
        Seq<u8>,
        Fault,
    >(public)
}

/// Make a certificate bound to an authentication key, and the seed of its key.
pub fn generate_hmac_certificate(auth_key: &[u8; 32], server_name: &str) -> (result: Result<
    (Vec<u8>, [u8; 32]),
    WireError,
>)
    ensures
        exists|seed: [u8; 32]|
            match #[trigger] seeded_certificate(auth_key@, server_name@, seed@) {
                Ok(der) => result matches Ok(actual) && actual.0@ == der && actual.1 == seed
                    && shows_key(der, auth_key@, seed@),
                Err(fault) => result matches Err(error) && error@ == fault,
            },
{
    let seed: [u8; 32] = random_bytes();
    match certificate_from_seed(auth_key, server_name, &seed) {
        Ok(der) => Ok((der, seed)),
        Err(error) => Err(error),
    }
}

/// The CertificateVerify message with a signature.
pub open spec fn certificate_verify_message(signature: Seq<u8>) -> Seq<u8> {
    handshake_message(
        HANDSHAKE_TYPE_CERTIFICATE_VERIFY,
        be16(0x0807) + be16(signature.len() as u16) + signature,
    )
}

/// Sign a transcript in a CertificateVerify message. A client that has the
/// seed's public key accepts the signature.
pub fn build_certificate_verify(seed: &[u8; 32], transcript_hash: &[u8]) -> (result: Result<
    Vec<u8>,
    WireError,
>)
    ensures
        match ed25519_signature_of(seed@, signed_content(transcript_hash@)) {
            Some(signature) => result matches Ok(message) && message@
                == certificate_verify_message(signature) && signature.len() == 64 && (
            ed25519_public_of(seed@) matches Some(public) ==> ed25519_verifies(
                public,
                signed_content(transcript_hash@),
                signature,
            )),
            None => result matches Err(error) && error@ == other_fault(
                "cannot sign the transcript"@,
            ),
        },
{
    let content = certificate_verify_content(transcript_hash);
    match ed25519_sign(seed.as_slice(), content.as_slice()) {
        None => Err(WireError::new(ErrorKind::Other, "cannot sign the transcript")),
        Some(signature) => {
            let mut body: Vec<u8> = Vec::new();
            push_u16(&mut body, 0x0807);
            push_u16(&mut body, signature.len() as u16);
            push_bytes(&mut body, signature.as_slice());
            assert(body@ =~= be16(0x0807) + be16(signature@.len() as u16) + signature@);
            Ok(message_of(HANDSHAKE_TYPE_CERTIFICATE_VERIFY, body.as_slice()))
        },
    }
}

/// What a server's flight is made of: the secrets of both ends, the transcript up
/// to the ServerHello, and the certificate and signature that it shows.
pub struct FlightInputs {
    pub suite: CipherSuite,
    /// The secret that the exchange came to.
    pub secret: Seq<u8>,
    /// The two hellos.
    pub transcript: Seq<u8>,
    pub certificate: Seq<u8>,
    pub seed: Seq<u8>,
}

impl FlightInputs {
    /// The server's handshake traffic secret.
    pub open spec fn server_secret(self) -> Seq<u8> {
        derived_secret(
            self.suite,
            handshake_secret(self.suite, self.secret),
            "s hs traffic"@,
            hash_of(self.suite, self.transcript),
        )
    }

    /// EncryptedExtensions, without any.
    pub open spec fn extensions_message(self) -> Seq<u8> {
        handshake_message(HANDSHAKE_TYPE_ENCRYPTED_EXTENSIONS, seq![0u8, 0u8])
    }

    /// The Certificate message.
    pub open spec fn certificate_message(self) -> Seq<u8> {
        handshake_message(HANDSHAKE_TYPE_CERTIFICATE, certificate_body(self.certificate))
    }

    /// The hash that the server signs.
    pub open spec fn signed_hash(self) -> Seq<u8> {
        hash_of(
            self.suite,
            self.transcript + self.extensions_message() + self.certificate_message(),
        )
    }

    /// The Finished message behind a CertificateVerify message.
    pub open spec fn finished_message(self, verify: Seq<u8>) -> Seq<u8> {
        handshake_message(
            HANDSHAKE_TYPE_FINISHED,
            finished_data(
                self.suite,
                self.server_secret(),
                hash_of(
                    self.suite,
                    self.transcript + self.extensions_message() + self.certificate_message()
                        + verify,
                ),
            ),
        )
    }

    /// The four messages, once the transcript is signed.
    pub open spec fn messages(self, signature: Seq<u8>) -> Seq<Seq<u8>> {
        let verify = certificate_verify_message(signature);
        seq![
            self.extensions_message(),
            self.certificate_message(),
            verify,
            self.finished_message(verify),
        ]
    }

    /// The whole handshake, once the transcript is signed.
    pub open spec fn whole(self, signature: Seq<u8>) -> Seq<u8> {
        let verify = certificate_verify_message(signature);
        self.transcript + self.extensions_message() + self.certificate_message() + verify
            + self.finished_message(verify)
    }

    /// The encryption of application data in one direction.
    pub open spec fn application(self, label: Seq<char>, signature: Seq<u8>) -> SealState {
        let secret = derived_secret(
            self.suite,
            master_secret_of(self.suite, self.secret),
            label,
            hash_of(self.suite, self.whole(signature)),
        );
        SealState {
            suite: self.suite,
            key: traffic_key(self.suite, secret),
            iv: traffic_iv(self.suite, secret),
            seq: 0,
        }
    }
}

/// The records of the first `n` messages, and how many they are.
pub open spec fn sealed_messages(state: SealState, messages: Seq<Seq<u8>>, n: nat) -> Result<
    (Seq<u8>, nat),
    Fault,
>
    decreases n,
{
    if n == 0 {
        Ok((Seq::empty(), 0))
    } else {
        match sealed_messages(state, messages, (n - 1) as nat) {
            Err(fault) => Err(fault),
            Ok((records, count)) => match sealed_stream(
                SealState { seq: state.seq + count, ..state },
                messages[n - 1],
                CONTENT_TYPE_HANDSHAKE,
            ) {
                Err(fault) => Err(fault),
                Ok((more, further)) => Ok((records + more, count + further)),
            },
        }
    }
}

/// The first `n` messages, one after another.
pub open spec fn joined(messages: Seq<Seq<u8>>, n: nat) -> Seq<u8>
    decreases n,
{
    if n == 0 {
        Seq::empty()
    } else {
        joined(messages, (n - 1) as nat) + messages[n - 1]
    }
}

/// The keys of a server after its handshake.
pub struct ServerAppKeys {
    server_key: AeadKey,
    server_iv: [u8; 12],
    server_seq: u64,
    client_key: AeadKey,
    client_iv: [u8; 12],
    client_seq: u64,
}

/// The encryption to the client, and from it.
pub struct ServerKeysShape {
    pub server: SealState,
    pub client: SealState,
}

impl View for ServerAppKeys {
    type V = ServerKeysShape;

    closed spec fn view(&self) -> ServerKeysShape {
        ServerKeysShape {
            server: SealState {
                suite: self.server_key@.0,
                key: self.server_key@.1,
                iv: self.server_iv@,
                seq: self.server_seq as int,
            },
            client: SealState {
                suite: self.client_key@.0,
                key: self.client_key@.1,
                iv: self.client_iv@,
                seq: self.client_seq as int,
            },
        }
    }
}

impl ServerAppKeys {
    /// Encrypt application data for the client. The records that were sealed before
    /// one is refused count.
    pub fn encrypt(&mut self, plaintext: &[u8]) -> (result: Result<Vec<u8>, WireError>)
        ensures
            final(self)@.client == old(self)@.client,
            match sealed_stream(old(self)@.server, plaintext@, CONTENT_TYPE_APPLICATION_DATA) {
                Ok((records, count)) => result matches Ok(actual) && actual@ == records
                    && final(self)@.server == (SealState {
                    seq: old(self)@.server.seq + count,
                    ..old(self)@.server
                }),
                Err(fault) => result matches Err(error) && error@ == fault,
            },
            final(self)@.server == (SealState {
                seq: old(self)@.server.seq + sealed_prefix(
                    old(self)@.server,
                    plaintext@,
                    CONTENT_TYPE_APPLICATION_DATA,
                ).1,
                ..old(self)@.server
            }),
            result matches Ok(records) ==> opened_stream(
                old(self)@.server,
                records@,
                CONTENT_TYPE_APPLICATION_DATA,
            ) == Some((plaintext@, (final(self)@.server.seq - old(self)@.server.seq) as nat)),
    {
        let mut out: Vec<u8> = Vec::new();
        let mut owned = to_vec(plaintext);
        let mut encryptor = RecordEncryptor::new(
            &self.server_key,
            self.server_iv.as_slice(),
            self.server_seq,
        );
        let result = encryptor.encrypt_app_data(&mut owned, &mut out);
        self.server_seq = encryptor.sequence();
        match result {
            Ok(()) => {
                proof {
                    let (records, _) = sealed_stream(
                        old(self)@.server,
                        plaintext@,
                        CONTENT_TYPE_APPLICATION_DATA,
                    )->Ok_0;
                    assert(Seq::<u8>::empty() + records =~= records);
                    assert(out@.subrange(0, out@.len() as int) =~= out@);
                }
                Ok(out)
            },
            Err(error) => Err(error),
        }
    }

    /// Decrypt a record of application data from the client.
    pub fn decrypt(&mut self, body: &[u8], record_len: u16) -> (result: Result<Vec<u8>, WireError>)
        ensures
            final(self)@.server == old(self)@.server,
            match opened_record(old(self)@.client, body@, record_len) {
                Ok((content_type, content)) => final(self)@.client == (SealState {
                    seq: old(self)@.client.seq + 1,
                    ..old(self)@.client
                }) && if content_type == CONTENT_TYPE_APPLICATION_DATA {
                    result matches Ok(actual) && actual@ == content
                } else {
                    result matches Err(error) && error@ == invalid_data(
                        "expected application data from the client"@,
                    )
                },
                Err(fault) => result matches Err(error) && error@ == fault && final(self)@.client
                    == old(self)@.client,
            },
    {
        let mut decryptor = RecordDecryptor::new(
            &self.client_key,
            self.client_iv.as_slice(),
            self.client_seq,
        );
        let result = decryptor.decrypt_record(body, record_len);
        self.client_seq = decryptor.sequence();
        match result {
            Err(error) => Err(error),
            Ok((content_type, content)) => {
                if content_type != CONTENT_TYPE_APPLICATION_DATA {
                    return Err(
                        WireError::new(
                            ErrorKind::InvalidData,
                            "expected application data from the client",
                        ),
                    );
                }
                Ok(content)
            },
        }
    }
}

/// A server's flight, and the keys behind it.
pub struct EncryptedFlight {
    pub bytes: Vec<u8>,
    pub keys: ServerAppKeys,
}

/// The bytes of messages.
pub open spec fn message_bytes(messages: Seq<Vec<u8>>) -> Seq<Seq<u8>> {
    Seq::new(messages.len(), |i: int| messages[i]@)
}

proof fn lemma_sealed_messages_fault(
    state: SealState,
    messages: Seq<Seq<u8>>,
    n: nat,
    m: nat,
)
    requires
        n <= m,
        sealed_messages(state, messages, n) is Err,
    ensures
        sealed_messages(state, messages, m) == sealed_messages(state, messages, n),
    decreases m,
{
    if n < m {
        lemma_sealed_messages_fault(state, messages, n, (m - 1) as nat);
    }
}

fn seal_messages(key: &AeadKey, iv: &[u8], messages: &Vec<Vec<u8>>) -> (result: Result<
    Vec<u8>,
    WireError,
>)
    requires
        iv@.len() == 12,
    ensures
        match sealed_messages(
            SealState { suite: key@.0, key: key@.1, iv: iv@, seq: 0 },
            message_bytes(messages@),
            messages@.len(),
        ) {
            Ok((records, count)) => result matches Ok(actual) && actual@ == records
                && opened_stream(
                SealState { suite: key@.0, key: key@.1, iv: iv@, seq: 0 },
                records,
                CONTENT_TYPE_HANDSHAKE,
            ) == Some((joined(message_bytes(messages@), messages@.len()), count)),
            Err(fault) => result matches Err(error) && error@ == fault,
        },
{
    let mut encryptor = RecordEncryptor::new(key, iv, 0);
    let mut records: Vec<u8> = Vec::new();
    let ghost start = encryptor.state();
    let ghost mut count: nat = 0;
    assert(records@ =~= Seq::<u8>::empty());
    for i in 0..messages.len()
        invariant
            start == (SealState { suite: key@.0, key: key@.1, iv: iv@, seq: 0 }),
            iv@.len() == 12,
            encryptor.state() == (SealState { seq: start.seq + count, ..start }),
            sealed_messages(start, message_bytes(messages@), i as nat) == Ok::<
                (Seq<u8>, nat),
                Fault,
            >((records@, count)),
            opened_stream(start, records@, CONTENT_TYPE_HANDSHAKE) == Some(
                (joined(message_bytes(messages@), i as nat), count),
            ),
    {
        let ghost before = encryptor.state();
        let ghost earlier = records@;
        match encryptor.encrypt_handshake(messages[i].as_slice(), &mut records) {
            Ok(()) => {
                proof {
                    let (sealed, further) = sealed_stream(
                        before,
                        messages@[i as int]@,
                        CONTENT_TYPE_HANDSHAKE,
                    )->Ok_0;
                    assert(records@.subrange(earlier.len() as int, records@.len() as int)
                        =~= sealed);
                    lemma_streams_join(start, earlier, sealed, CONTENT_TYPE_HANDSHAKE);
                    count = count + further;
                }
            },
            Err(error) => {
                proof {
                    lemma_sealed_messages_fault(
                        start,
                        message_bytes(messages@),
                        (i + 1) as nat,
                        messages@.len(),
                    );
                }
                return Err(error);
            },
        }
    }
    Ok(records)
}

/// What a client makes of the first `n` messages of a flight.
pub open spec fn taken_in(flight: FlightShape, messages: Seq<Seq<u8>>, n: nat) -> Result<
    FlightShape,
    Fault,
>
    decreases n,
{
    if n == 0 {
        Ok(flight)
    } else {
        match taken_in(flight, messages, (n - 1) as nat) {
            Err(fault) => Err(fault),
            Ok(before) => after_content(before, messages[n - 1]),
        }
    }
}

/// Whether a client that awaits a flight completes the handshake on these
/// messages.
pub open spec fn completes(flight: FlightShape, messages: Seq<Seq<u8>>) -> bool {
    taken_in(flight, messages, messages.len()) matches Ok(done) && done.found == 4
        && flight_verdict(done) is Ok
}

proof fn lemma_message(flight: FlightShape, message_type: u8, body: Seq<u8>)
    requires
        0 <= flight.offset == flight.plaintext.len(),
        0 <= flight.found < 4,
        body.len() < 16777216,
        message_type == expected_type(flight.found),
    ensures
        ({
            let message = handshake_message(message_type, body);
            let fed = FlightShape {
                plaintext: flight.plaintext + message,
                seq: flight.seq + 1,
                ..flight
            };
            let end = fed.plaintext.len() as int;
            &&& message.len() == body.len() + 4
            &&& fed.plaintext.subrange(flight.offset, end) == message
            &&& read24(fed.plaintext, flight.offset + 1) == body.len()
            &&& after_message(fed, end) matches Ok(next) ==> after_content(flight, message) == Ok::<
                FlightShape,
                Fault,
            >(next)
        }),
{
    let message = handshake_message(message_type, body);
    let fed = FlightShape { plaintext: flight.plaintext + message, seq: flight.seq + 1, ..flight };
    let end = fed.plaintext.len() as int;
    let at = flight.offset;
    assert(message[1] == be24(body.len() as int)[0]);
    assert(message[2] == be24(body.len() as int)[1]);
    assert(message[3] == be24(body.len() as int)[2]);
    assert(fed.plaintext[at + 1] == message[1]);
    assert(fed.plaintext[at + 2] == message[2]);
    assert(fed.plaintext[at + 3] == message[3]);
    assert(read24(fed.plaintext, at + 1) == body.len());
    assert(fed.plaintext.subrange(at, end) =~= message);
    assert(fed.plaintext[at] == message_type);
    assert(next_message_end(fed) == Some(end));
    if let Ok(next) = after_message(fed, end) {
        assert(next.offset == end);
        assert(next_message_end(next) is None);
        assert(after_messages(next) == Ok::<FlightShape, Fault>(next));
    }
}

proof fn lemma_read24_at(bytes: Seq<u8>, at: int, value: int)
    requires
        0 <= at,
        at + 3 <= bytes.len(),
        0 <= value < 16777216,
        bytes.subrange(at, at + 3) == be24(value),
    ensures
        read24(bytes, at) == value,
{
    let window = bytes.subrange(at, at + 3);
    assert(window[0] == bytes[at] && window[1] == bytes[at + 1] && window[2] == bytes[at + 2]);
    lemma_read_be24(value);
}

proof fn lemma_certificate_read(der: Seq<u8>)
    requires
        der.len() < 16777206,
    ensures
        certificate_body(der).len() == der.len() + 9,
        certificate_in(handshake_message(HANDSHAKE_TYPE_CERTIFICATE, certificate_body(der)))
            == Ok::<Seq<u8>, Fault>(der),
{
    let size = be24(der.len() as int);
    let head = seq![HANDSHAKE_TYPE_CERTIFICATE] + be24(certificate_body(der).len() as int) + seq![
        0u8,
    ] + be24(der.len() as int + 5);
    let message = handshake_message(HANDSHAKE_TYPE_CERTIFICATE, certificate_body(der));
    assert(head.len() == 8);
    assert(size.len() == 3);
    assert(message =~= head + size + der + seq![0u8, 0u8]);
    assert(message[0] == HANDSHAKE_TYPE_CERTIFICATE);
    assert(message[4] == 0u8);
    assert(message.subrange(8, 11) =~= size);
    lemma_read24_at(message, 8, der.len() as int);
    assert(message.subrange(11, 11 + der.len() as int) =~= der);
}

proof fn lemma_verify_read(signature: Seq<u8>)
    requires
        signature.len() == 64,
    ensures
        certificate_verify_message(signature).len() == 72,
        verify_signature_in(certificate_verify_message(signature)) == Ok::<Seq<u8>, Fault>(
            signature,
        ),
{
    let body = be16(0x0807) + be16(64u16) + signature;
    let message = certificate_verify_message(signature);
    assert(message =~= handshake_message(HANDSHAKE_TYPE_CERTIFICATE_VERIFY, body));
    assert(message[4] == body[0] && message[5] == body[1] && message[6] == body[2] && message[7]
        == body[3]);
    assert(message.subrange(8, 72) =~= signature);
}

/// The flight after one more whole message.
spec fn stepped(flight: FlightShape, message: Seq<u8>) -> FlightShape {
    FlightShape {
        plaintext: flight.plaintext + message,
        seq: flight.seq + 1,
        offset: (flight.plaintext + message).len() as int,
        found: flight.found + 1,
        ..flight
    }
}

proof fn lemma_extensions_step(flight: FlightShape)
    requires
        0 <= flight.offset == flight.plaintext.len(),
        flight.found == 0,
    ensures
        ({
            let message = handshake_message(
                HANDSHAKE_TYPE_ENCRYPTED_EXTENSIONS,
                seq![0u8, 0u8],
            );
            after_content(flight, message) == Ok::<FlightShape, Fault>(stepped(flight, message))
        }),
{
    lemma_message(flight, HANDSHAKE_TYPE_ENCRYPTED_EXTENSIONS, seq![0u8, 0u8]);
}

proof fn lemma_certificate_step(flight: FlightShape, der: Seq<u8>, key: Seq<u8>)
    requires
        0 <= flight.offset == flight.plaintext.len(),
        flight.found == 1,
        der.len() < 16777206,
        certificate_verdict(der, flight.auth_key) is Ok,
        certificate_key(der) == Ok::<Seq<u8>, Fault>(key),
    ensures
        ({
            let message = handshake_message(HANDSHAKE_TYPE_CERTIFICATE, certificate_body(der));
            after_content(flight, message) == Ok::<FlightShape, Fault>(
                FlightShape { public_key: Some(key), ..stepped(flight, message) },
            )
        }),
{
    lemma_certificate_read(der);
    lemma_message(flight, HANDSHAKE_TYPE_CERTIFICATE, certificate_body(der));
}

proof fn lemma_verify_step(flight: FlightShape, signature: Seq<u8>)
    requires
        0 <= flight.offset == flight.plaintext.len(),
        flight.found == 2,
        signature.len() == 64,
    ensures
        ({
            let message = certificate_verify_message(signature);
            after_content(flight, message) == Ok::<FlightShape, Fault>(
                FlightShape { verify_offset: Some(flight.offset), ..stepped(flight, message) },
            )
        }),
{
    lemma_message(
        flight,
        HANDSHAKE_TYPE_CERTIFICATE_VERIFY,
        be16(0x0807) + be16(signature.len() as u16) + signature,
    );
}

proof fn lemma_finished_step(flight: FlightShape, data: Seq<u8>)
    requires
        0 <= flight.offset == flight.plaintext.len(),
        flight.found == 3,
        data.len() < 16777216,
    ensures
        ({
            let message = handshake_message(HANDSHAKE_TYPE_FINISHED, data);
            after_content(flight, message) == Ok::<FlightShape, Fault>(
                FlightShape { finished_offset: Some(flight.offset), ..stepped(flight, message) },
            )
        }),
{
    lemma_message(flight, HANDSHAKE_TYPE_FINISHED, data);
}

/// A flight of a front, a CertificateVerify message and a Finished message is
/// accepted where the signature and the data fit.
proof fn lemma_accepted(
    done: FlightShape,
    front: Seq<u8>,
    key: Seq<u8>,
    signature: Seq<u8>,
    data: Seq<u8>,
)
    requires
        signature.len() == 64,
        data.len() == done.suite.spec_hash_len(),
        done.plaintext == front + certificate_verify_message(signature) + handshake_message(
            HANDSHAKE_TYPE_FINISHED,
            data,
        ),
        done.offset == done.plaintext.len(),
        done.public_key == Some(key),
        done.verify_offset == Some(front.len() as int),
        done.finished_offset == Some(front.len() as int + 72),
        ed25519_verifies(
            key,
            signed_content(hash_of(done.suite, done.transcript + front)),
            signature,
        ),
        data == finished_data(
            done.suite,
            done.server_secret,
            hash_of(
                done.suite,
                done.transcript + (front + certificate_verify_message(signature)),
            ),
        ),
    ensures
        flight_verdict(done) is Ok,
{
    let verify = certificate_verify_message(signature);
    let body = be16(0x0807) + be16(signature.len() as u16) + signature;
    let finished = handshake_message(HANDSHAKE_TYPE_FINISHED, data);
    let at = front.len() as int;
    lemma_verify_read(signature);
    assert(done.plaintext.subrange(0, at) =~= front);
    assert(done.plaintext.subrange(0, at + 72) =~= front + verify);
    assert(done.plaintext.subrange(at, at + 72) =~= verify);
    assert(verify.subrange(1, 4) =~= be24(body.len() as int));
    assert(done.plaintext.subrange(at + 1, at + 4) =~= verify.subrange(1, 4));
    lemma_read24_at(done.plaintext, at + 1, 68);
    assert(finished.subrange(1, 4) =~= be24(data.len() as int));
    assert(done.plaintext.subrange(at + 73, at + 76) =~= finished.subrange(1, 4));
    lemma_read24_at(done.plaintext, at + 73, data.len() as int);
    assert(done.plaintext.subrange(at + 76, at + 76 + data.len()) =~= data);
}

/// A client that derived the same secrets completes its handshake on the four
/// messages that a server makes of a certificate bound to the authentication
/// key and of a signature with the certificate's key.
pub proof fn a_client_accepts_the_flight(
    inputs: FlightInputs,
    auth_key: Seq<u8>,
    key: Seq<u8>,
    signature: Seq<u8>,
)
    requires
        inputs.certificate.len() < 16777206,
        certificate_verdict(inputs.certificate, auth_key) is Ok,
        certificate_key(inputs.certificate) == Ok::<Seq<u8>, Fault>(key),
        signature.len() == 64,
        ed25519_verifies(key, signed_content(inputs.signed_hash()), signature),
        inputs.finished_message(certificate_verify_message(signature)).len()
            == inputs.suite.spec_hash_len() + 4,
    ensures
        completes(
            flight_after(inputs.suite, inputs.secret, inputs.transcript, auth_key),
            inputs.messages(signature),
        ),
{
    let start = flight_after(inputs.suite, inputs.secret, inputs.transcript, auth_key);
    let messages = inputs.messages(signature);
    let extensions = inputs.extensions_message();
    let certificate = inputs.certificate_message();
    let verify = certificate_verify_message(signature);
    let front = extensions + certificate;
    let data = finished_data(
        inputs.suite,
        inputs.server_secret(),
        hash_of(inputs.suite, inputs.transcript + extensions + certificate + verify),
    );
    let finished = handshake_message(HANDSHAKE_TYPE_FINISHED, data);
    assert(finished.len() == data.len() + 4);
    lemma_verify_read(signature);
    lemma_extensions_step(start);
    let first = stepped(start, extensions);
    lemma_certificate_step(first, inputs.certificate, key);
    let second = FlightShape { public_key: Some(key), ..stepped(first, certificate) };
    lemma_verify_step(second, signature);
    let third = FlightShape { verify_offset: Some(second.offset), ..stepped(second, verify) };
    lemma_finished_step(third, data);
    let done = FlightShape { finished_offset: Some(third.offset), ..stepped(third, finished) };
    reveal_with_fuel(taken_in, 5);
    assert(taken_in(start, messages, 4) == Ok::<FlightShape, Fault>(done));
    assert(second.plaintext =~= front);
    assert(done.plaintext =~= front + verify + finished);
    assert(inputs.transcript + front =~= inputs.transcript + extensions + certificate);
    assert(inputs.transcript + (front + verify) =~= inputs.transcript + extensions + certificate
        + verify);
    lemma_accepted(done, front, key, signature, data);
}

/// The inputs of a flight.
pub open spec fn flight_inputs(
    parsed: ParsedShape,
    secret: Seq<u8>,
    transcript: Seq<u8>,
    certificate: Seq<u8>,
    seed: Seq<u8>,
) -> FlightInputs {
    FlightInputs { suite: parsed.cipher_suite, secret, transcript, certificate, seed }
}

/// The encryption of a server's flight.
pub open spec fn server_flight_seal(inputs: FlightInputs) -> SealState {
    SealState {
        suite: inputs.suite,
        key: traffic_key(inputs.suite, inputs.server_secret()),
        iv: traffic_iv(inputs.suite, inputs.server_secret()),
        seq: 0,
    }
}

fn traffic_keys(suite: CipherSuite, secret: &[u8]) -> (result: Result<
    (AeadKey, [u8; 12]),
    WireError,
>)
    ensures
        result matches Ok(keys) && keys.0@ == (suite, traffic_key(suite, secret@)) && keys.1@
            == traffic_iv(suite, secret@),
{
    let (key_bytes, iv) = derive_traffic_keys(secret, suite);
    match AeadKey::new(suite, key_bytes.as_slice()) {
        Ok(key) => Ok((key, copy_array(iv.as_slice()))),
        Err(error) => Err(error),
    }
}

/// Make the flight of a server with a certificate and the seed of its key at
/// hand. A client that derived the same secrets completes its handshake on the
/// messages, where the certificate is bound to the authentication key and
/// carries the seed's key.
pub fn build_flight(
    parsed: &ParsedClientHello,
    shared_secret: &[u8; 32],
    transcript: &[u8],
    certificate: &[u8],
    seed: &[u8; 32],
) -> (result: Result<EncryptedFlight, WireError>)
    ensures
        ({
            let inputs = flight_inputs(
                parsed@,
                shared_secret@,
                transcript@,
                certificate@,
                seed@,
            );
            match ed25519_signature_of(seed@, signed_content(inputs.signed_hash())) {
                None => result matches Err(error) && error@ == other_fault(
                    "cannot sign the transcript"@,
                ),
                Some(signature) => {
                    &&& match sealed_messages(
                        server_flight_seal(inputs),
                        inputs.messages(signature),
                        4,
                    ) {
                        Err(fault) => result matches Err(error) && error@ == fault,
                        Ok((records, count)) => result matches Ok(flight) && flight.bytes@
                            == records && flight.keys@ == (ServerKeysShape {
                            server: inputs.application("s ap traffic"@, signature),
                            client: inputs.application("c ap traffic"@, signature),
                        }) && opened_stream(
                            server_flight_seal(inputs),
                            records,
                            CONTENT_TYPE_HANDSHAKE,
                        ) == Some((joined(inputs.messages(signature), 4), count)),
                    }
                    &&& certificate@.len() < 16777206 && shows_key(
                        certificate@,
                        parsed@.auth_key,
                        seed@,
                    ) ==> completes(
                        flight_after(
                            inputs.suite,
                            inputs.secret,
                            inputs.transcript,
                            parsed@.auth_key,
                        ),
                        inputs.messages(signature),
                    )
                },
            }
        }),
{
    let suite = parsed.cipher_suite;
    let ghost inputs = flight_inputs(
        parsed@,
        shared_secret@,
        transcript@,
        certificate@,
        seed@,
    );
    let hash = transcript_hash(suite, transcript);
    let keys = derive_handshake_keys(suite, shared_secret.as_slice(), hash.as_slice());
    let extensions = match construct_encrypted_extensions() {
        Ok(message) => message,
        Err(error) => {
            return Err(error);
        },
    };
    let certificate_message = match construct_certificate(certificate) {
        Ok(message) => message,
        Err(error) => {
            return Err(error);
        },
    };
    let mut whole = to_vec(transcript);
    push_bytes(&mut whole, extensions.as_slice());
    push_bytes(&mut whole, certificate_message.as_slice());
    let signed_hash = transcript_hash(suite, whole.as_slice());
    let verify = match build_certificate_verify(seed, signed_hash.as_slice()) {
        Ok(message) => message,
        Err(error) => {
            return Err(error);
        },
    };
    let ghost signature = ed25519_signature_of(
        seed@,
        signed_content(inputs.signed_hash()),
    )->0;
    push_bytes(&mut whole, verify.as_slice());
    let finished_hash = transcript_hash(suite, whole.as_slice());
    let verify_data = compute_finished_verify_data(
        suite,
        keys.server_handshake_traffic_secret.as_slice(),
        finished_hash.as_slice(),
    );
    let finished = match construct_finished(verify_data.as_slice()) {
        Ok(message) => message,
        Err(error) => {
            return Err(error);
        },
    };
    push_bytes(&mut whole, finished.as_slice());
    let handshake_hash = transcript_hash(suite, whole.as_slice());
    proof {
        assert(finished@.len() == suite.spec_hash_len() + 4);
        assert(whole@ == inputs.whole(signature));
        if certificate@.len() < 16777206 && shows_key(certificate@, parsed@.auth_key, seed@) {
            a_client_accepts_the_flight(
                inputs,
                parsed@.auth_key,
                ed25519_public_of(seed@)->0,
                signature,
            );
        }
    }
    let (hs_key, hs_iv) = match traffic_keys(
        suite,
        keys.server_handshake_traffic_secret.as_slice(),
    ) {
        Ok(keys) => keys,
        Err(error) => {
            return Err(error);
        },
    };
    let messages: Vec<Vec<u8>> = vec![extensions, certificate_message, verify, finished];
    assert(message_bytes(messages@) =~= inputs.messages(signature));
    let bytes = match seal_messages(&hs_key, hs_iv.as_slice(), &messages) {
        Ok(bytes) => bytes,
        Err(error) => {
            return Err(error);
        },
    };
    let (client_secret, server_secret) = derive_application_secrets(
        suite,
        keys.master_secret.as_slice(),
        handshake_hash.as_slice(),
    );
    let (client_key, client_iv) = match traffic_keys(suite, client_secret.as_slice()) {
        Ok(keys) => keys,
        Err(error) => {
            return Err(error);
        },
    };
    let (server_key, server_iv) = match traffic_keys(suite, server_secret.as_slice()) {
        Ok(keys) => keys,
        Err(error) => {
            return Err(error);
        },
    };
    Ok(
        EncryptedFlight {
            bytes,
            keys: ServerAppKeys {
                server_key,
                server_iv,
                server_seq: 0,
                client_key,
                client_iv,
                client_seq: 0,
            },
        },
    )
}

/// The flight that a seed makes for a name, and the keys behind it.
#[verifier::opaque]
pub open spec fn seeded_flight(
    parsed: ParsedShape,
    secret: Seq<u8>,
    transcript: Seq<u8>,
    server_name: Seq<char>,
    seed: Seq<u8>,
) -> Result<(Seq<u8>, ServerKeysShape), Fault> {
    match seeded_certificate(parsed.auth_key, server_name, seed) {
        Err(fault) => Err(fault),
        Ok(certificate) => {
            let inputs = flight_inputs(parsed, secret, transcript, certificate, seed);
            match ed25519_signature_of(seed, signed_content(inputs.signed_hash())) {
                None => Err(other_fault("cannot sign the transcript"@)),
                Some(signature) => match sealed_messages(
                    server_flight_seal(inputs),
                    inputs.messages(signature),
                    4,
                ) {
                    Err(fault) => Err(fault),
                    Ok((records, _)) => Ok(
                        (
                            records,
                            ServerKeysShape {
                                server: inputs.application("s ap traffic"@, signature),
                                client: inputs.application("c ap traffic"@, signature),
                            },
                        ),
                    ),
                },
            }
        },
    }
}

/// Whether a client that derived the same secrets completes its handshake on the
/// messages that a seed makes, as long as their lengths fit the fields that count
/// them.
pub open spec fn client_completes(
    parsed: ParsedShape,
    secret: Seq<u8>,
    transcript: Seq<u8>,
    server_name: Seq<char>,
    seed: Seq<u8>,
) -> bool {
    &&& seeded_certificate(parsed.auth_key, server_name, seed) matches Ok(certificate) && {
        let inputs = flight_inputs(parsed, secret, transcript, certificate, seed);
        ed25519_signature_of(seed, signed_content(inputs.signed_hash())) matches Some(signature)
            && (certificate.len() < 16777206 ==> completes(
            flight_after(inputs.suite, inputs.secret, inputs.transcript, parsed.auth_key),
            inputs.messages(signature),
        ))
    }
}

/// Make the flight of a server with a fresh certificate for its name.
///
/// The certificate's key is random, so nothing is claimed of the bytes but that
/// some seed makes them, and that a client that derived the same secrets
/// completes its handshake on them.
pub fn build_encrypted_flight(
    parsed: &ParsedClientHello,
    shared_secret: &[u8; 32],
    transcript: &[u8],
    server_name: &str,
) -> (result: Result<EncryptedFlight, WireError>)
    ensures
        exists|seed: [u8; 32]|
            match #[trigger] seeded_flight(
                parsed@,
                shared_secret@,
                transcript@,
                server_name@,
                seed@,
            ) {
                Ok((records, keys)) => result matches Ok(flight) && flight.bytes@ == records
                    && flight.keys@ == keys && client_completes(
                    parsed@,
                    shared_secret@,
                    transcript@,
                    server_name@,
                    seed@,
                ),
                Err(fault) => result matches Err(error) && error@ == fault,
            },
{
    proof {
        reveal(seeded_flight);
    }
    let (certificate, seed) = match generate_hmac_certificate(&parsed.auth_key, server_name) {
        Ok(made) => made,
        Err(error) => {
            proof {
                let seed = choose|seed: [u8; 32]|
                    (#[trigger] seeded_certificate(parsed@.auth_key, server_name@, seed@)) == Err::<
                        Seq<u8>,
                        Fault,
                    >(error@);
                assert(seeded_flight(
                    parsed@,
                    shared_secret@,
                    transcript@,
                    server_name@,
                    seed@,
                ) == Err::<(Seq<u8>, ServerKeysShape), Fault>(error@));
            }
            return Err(error);
        },
    };
    let ghost made = seeded_flight(parsed@, shared_secret@, transcript@, server_name@, seed@);
    build_flight(parsed, shared_secret, transcript, certificate.as_slice(), &seed)
}

proof fn lemma_key_stays(front: Seq<u8>, tail: Seq<u8>, at: int)
    requires
        0 <= at,
        ed25519_key_from(front, at) is Some,
    ensures
        ed25519_key_from(front + tail, at) == ed25519_key_from(front, at),
    decreases front.len() - at,
{
    let whole = front + tail;
    assert(at + 40 <= front.len());
    assert(whole.subrange(at, at + 8) =~= front.subrange(at, at + 8));
    assert(whole.subrange(at + 8, at + 40) =~= front.subrange(at + 8, at + 40));
    if !key_marked_at(front, at) {
        lemma_key_stays(front, tail, at + 1);
    }
}

/// A certificate that was bound to an authentication key verifies under it.
pub proof fn a_bound_certificate_verifies(der: Seq<u8>, auth_key: Seq<u8>)
    requires
        bound_certificate(der, auth_key) matches Ok(bound) && bound.len() == der.len(),
    ensures
        certificate_verdict(bound_certificate(der, auth_key)->Ok_0, auth_key) is Ok,
{
    let front = der.subrange(0, der.len() - 64);
    let key = certificate_key(front)->Ok_0;
    let tag = hmac_sha512_of(auth_key, key);
    let bound = front + tag;
    lemma_key_stays(front, tag, 0);
    assert(bound.subrange(bound.len() - 64, bound.len() as int) =~= tag);
}

/// What a server sends for a client's hello with these draws, a server random, a
/// private key and the seed of a certificate: the record of its ServerHello, the
/// records of its flight, and the keys behind them.
pub open spec fn server_answer(
    parsed: ParsedShape,
    client_hello: Seq<u8>,
    server_name: Seq<char>,
    draws: (Seq<u8>, Seq<u8>, Seq<u8>),
) -> Result<(Seq<u8>, Seq<u8>, ServerKeysShape), Fault> {
    match answered(parsed, draws.0, draws.1) {
        Err(fault) => Err(fault),
        Ok((hello, secret)) => match seeded_flight(
            parsed,
            secret,
            client_hello + hello,
            server_name,
            draws.2,
        ) {
            Err(fault) => Err(fault),
            Ok((records, keys)) => Ok(
                (
                    seq![CONTENT_TYPE_HANDSHAKE, 0x03u8, 0x03u8] + be16(
                        (hello.len() % 65536) as u16,
                    ) + hello,
                    records,
                    keys,
                ),
            ),
        },
    }
}

/// A server that a client is tested against.
pub struct RealityTestServer {
    private_key: [u8; 32],
    server_name: String,
}

impl RealityTestServer {
    pub closed spec fn private(self) -> Seq<u8> {
        self.private_key@
    }

    pub closed spec fn name(self) -> Seq<char> {
        self.server_name@
    }

    /// A server with a private key and a name.
    pub fn new(private_key: [u8; 32], server_name: &str) -> (server: RealityTestServer)
        ensures
            server.private() == private_key@,
            server.name() == server_name@,
    {
        RealityTestServer { private_key, server_name: text_of(server_name) }
    }

    /// The public key that clients are configured with.
    pub fn public_key(&self) -> (result: Result<[u8; 32], WireError>)
        ensures
            match x25519_public_of(self.private()) {
                Err(step) => result matches Err(error) && error@ == other_fault(
                    if step == 0 {
                        "bad X25519 private key"@
                    } else {
                        "cannot derive public key"@
                    },
                ),
                Ok(public) => if public.len() == 32 {
                    result matches Ok(actual) && actual@ == public
                } else {
                    result matches Err(error) && error@ == other_fault(
                        "cannot derive public key"@,
                    )
                },
            },
    {
        match x25519_public(self.private_key.as_slice()) {
            Err(step) => {
                if step == 0 {
                    return Err(WireError::new(ErrorKind::Other, "bad X25519 private key"));
                }
                Err(WireError::new(ErrorKind::Other, "cannot derive public key"))
            },
            Ok(public) => {
                if public.len() != 32 {
                    return Err(WireError::new(ErrorKind::Other, "cannot derive public key"));
                }
                Ok(copy_array(public.as_slice()))
            },
        }
    }

    /// The record of the ServerHello, the records of the flight, and the session
    /// that follows: what the server sends when a client's first record comes
    /// in.
    pub fn answer(&self, header: [u8; 5], client_hello: &[u8]) -> (result: Result<
        (Vec<u8>, Vec<u8>, RealityTestSession),
        WireError,
    >)
        ensures
            match parsed_hello(client_hello@, self.private()) {
                Err(fault) => result matches Err(error) && error@ == fault,
                Ok(parsed) => exists|server_random: [u8; 32], private: [u8; 32], seed: [u8; 32]|
                    match #[trigger] server_answer(
                        parsed,
                        client_hello@,
                        self.name(),
                        (server_random@, private@, seed@),
                    ) {
                        Ok((hello, flight, keys)) => result matches Ok(answer) && answer.0@
                            == hello && answer.1@ == flight && answer.2.keys() == keys
                            && answer.2.first_header() == header@,
                        Err(fault) => result matches Err(error) && error@ == fault,
                    },
            },
    {
        let parsed = match parse_client_hello(client_hello, &self.private_key) {
            Ok(parsed) => parsed,
            Err(error) => {
                return Err(error);
            },
        };
        let (server_hello, secret) = match build_server_hello(&parsed) {
            Ok(answer) => answer,
            Err(error) => {
                proof {
                    let (server_random, private) = choose|
                        server_random: [u8; 32],
                        private: [u8; 32],
                    |
                        (#[trigger] answered(parsed@, server_random@, private@)) == Err::<
                            (Seq<u8>, Seq<u8>),
                            Fault,
                        >(error@);
                    assert(server_answer(
                        parsed@,
                        client_hello@,
                        self.name(),
                        (server_random@, private@, server_random@),
                    ) == Err::<(Seq<u8>, Seq<u8>, ServerKeysShape), Fault>(error@));
                }
                return Err(error);
            },
        };
        let ghost (server_random, private) = choose|server_random: [u8; 32], private: [u8; 32]|
            (#[trigger] answered(parsed@, server_random@, private@)) == Ok::<
                (Seq<u8>, Seq<u8>),
                Fault,
            >((server_hello@, secret@));
        let mut record = record_header(CONTENT_TYPE_HANDSHAKE, server_hello.len());
        push_bytes(&mut record, server_hello.as_slice());
        let mut transcript = to_vec(client_hello);
        push_bytes(&mut transcript, server_hello.as_slice());
        let flight = build_encrypted_flight(
            &parsed,
            &secret,
            transcript.as_slice(),
            self.server_name.as_str(),
        );
        let ghost seed = choose|seed: [u8; 32]|
            match #[trigger] seeded_flight(
                parsed@,
                secret@,
                client_hello@ + server_hello@,
                self.name(),
                seed@,
            ) {
                Ok((records, keys)) => flight matches Ok(made) && made.bytes@ == records
                    && made.keys@ == keys,
                Err(fault) => flight matches Err(error) && error@ == fault,
            };
        let ghost answer = server_answer(
            parsed@,
            client_hello@,
            self.name(),
            (server_random@, private@, seed@),
        );
        match flight {
            Ok(flight) => Ok(
                (
                    record,
                    flight.bytes,
                    RealityTestSession { keys: flight.keys, initial_record_header: header },
                ),
            ),
            Err(error) => Err(error),
        }
    }
}

/// A server's side of a session with a client.
pub struct RealityTestSession {
    keys: ServerAppKeys,
    initial_record_header: [u8; 5],
}

impl RealityTestSession {
    /// The header of the client's first record.
    pub closed spec fn first_header(self) -> Seq<u8> {
        self.initial_record_header@
    }

    /// The keys of the session.
    pub closed spec fn keys(self) -> ServerKeysShape {
        self.keys@
    }

    /// The header of the client's first record.
    pub fn initial_record_header(&self) -> (header: [u8; 5])
        ensures
            header@ == self.first_header(),
    {
        self.initial_record_header
    }

    /// Decrypt a record's body that came from the client.
    pub fn read(&mut self, body: &[u8], record_len: u16) -> (result: Result<Vec<u8>, WireError>)
        ensures
            final(self).first_header() == old(self).first_header(),
            final(self).keys().server == old(self).keys().server,
            match opened_record(old(self).keys().client, body@, record_len) {
                Ok((content_type, content)) => final(self).keys().client == (SealState {
                    seq: old(self).keys().client.seq + 1,
                    ..old(self).keys().client
                }) && if content_type == CONTENT_TYPE_APPLICATION_DATA {
                    result matches Ok(actual) && actual@ == content
                } else {
                    result matches Err(error) && error@ == invalid_data(
                        "expected application data from the client"@,
                    )
                },
                Err(fault) => result matches Err(error) && error@ == fault
                    && final(self).keys().client == old(self).keys().client,
            },
    {
        self.keys.decrypt(body, record_len)
    }

    /// The records that carry plaintext to the client.
    pub fn write(&mut self, plaintext: &[u8]) -> (result: Result<Vec<u8>, WireError>)
        ensures
            final(self).first_header() == old(self).first_header(),
            final(self).keys().client == old(self).keys().client,
            match sealed_stream(
                old(self).keys().server,
                plaintext@,
                CONTENT_TYPE_APPLICATION_DATA,
            ) {
                Ok((records, count)) => result matches Ok(actual) && actual@ == records
                    && final(self).keys().server == (SealState {
                    seq: old(self).keys().server.seq + count,
                    ..old(self).keys().server
                }),
                Err(fault) => result matches Err(error) && error@ == fault,
            },
            final(self).keys().server == (SealState {
                seq: old(self).keys().server.seq + sealed_prefix(
                    old(self).keys().server,
                    plaintext@,
                    CONTENT_TYPE_APPLICATION_DATA,
                ).1,
                ..old(self).keys().server
            }),
            result matches Ok(records) ==> opened_stream(
                old(self).keys().server,
                records@,
                CONTENT_TYPE_APPLICATION_DATA,
            ) == Some(
                (plaintext@, (final(self).keys().server.seq - old(self).keys().server.seq) as nat),
            ),
    {
        self.keys.encrypt(plaintext)
    }
}

} // verus!
