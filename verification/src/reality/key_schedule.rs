//! The TLS 1.3 key schedule (RFC 8446 section 7.1), over HMAC.
use crate::crypto::{
    hmac_sha256, hmac_sha256_of, hmac_sha384, hmac_sha384_of, sha256, sha256_of, sha384, sha384_of,
};
use crate::octets::{be16, copy_range, push_bytes, push_u16};
use crate::reality::cipher_suite::CipherSuite;
use vstd::prelude::*;
use vstd::string::*;
use vstd::utf8::encode_utf8;

verus! {

/// Length of a record IV.
pub const IV_LEN: usize = 12;

/// The suite's hash of `data`.
pub open spec fn hash_of(suite: CipherSuite, data: Seq<u8>) -> Seq<u8> {
    match suite {
        CipherSuite::Aes256GcmSha384 => sha384_of(data),
        _ => sha256_of(data),
    }
}

/// The suite's HMAC of `data` under `key`.
pub open spec fn hmac_of(suite: CipherSuite, key: Seq<u8>, data: Seq<u8>) -> Seq<u8> {
    match suite {
        CipherSuite::Aes256GcmSha384 => hmac_sha384_of(key, data),
        _ => hmac_sha256_of(key, data),
    }
}

/// The `HkdfLabel` structure: length, label with its prefix, context.
pub open spec fn hkdf_label(label: Seq<char>, context: Seq<u8>, length: nat) -> Seq<u8> {
    be16(length as u16) + seq![((6 + encode_utf8(label).len()) % 256) as u8] + encode_utf8("tls13 "@)
        + encode_utf8(label) + seq![(context.len() % 256) as u8] + context
}

/// HKDF-Expand-Label for a length that one block covers.
pub open spec fn expanded(
    suite: CipherSuite,
    secret: Seq<u8>,
    label: Seq<char>,
    context: Seq<u8>,
    length: nat,
) -> Seq<u8> {
    hmac_of(suite, secret, hkdf_label(label, context, length).push(1)).subrange(0, length as int)
}

/// Derive-Secret over a transcript hash.
pub open spec fn derived_secret(
    suite: CipherSuite,
    secret: Seq<u8>,
    label: Seq<char>,
    transcript_hash: Seq<u8>,
) -> Seq<u8> {
    expanded(suite, secret, label, transcript_hash, suite.spec_hash_len())
}

/// As many zeros as the suite's hash is long.
pub open spec fn zero_secret(suite: CipherSuite) -> Seq<u8> {
    Seq::new(suite.spec_hash_len(), |i: int| 0u8)
}

/// The secret between two stages of the schedule.
pub open spec fn next_salt(suite: CipherSuite, secret: Seq<u8>) -> Seq<u8> {
    derived_secret(suite, secret, "derived"@, hash_of(suite, Seq::empty()))
}

/// The handshake secret of a key exchange.
pub open spec fn handshake_secret(suite: CipherSuite, shared_secret: Seq<u8>) -> Seq<u8> {
    hmac_of(
        suite,
        next_salt(suite, hmac_of(suite, zero_secret(suite), zero_secret(suite))),
        shared_secret,
    )
}

/// The master secret of a key exchange.
pub open spec fn master_secret_of(suite: CipherSuite, shared_secret: Seq<u8>) -> Seq<u8> {
    hmac_of(suite, next_salt(suite, handshake_secret(suite, shared_secret)), zero_secret(suite))
}

/// The suite's hash of `data`.
pub fn transcript_hash(suite: CipherSuite, data: &[u8]) -> (hash: Vec<u8>)
    ensures
        hash@ == hash_of(suite, data@),
        hash@.len() == suite.spec_hash_len(),
{
    match suite {
        CipherSuite::Aes256GcmSha384 => sha384(data),
        _ => sha256(data),
    }
}

fn suite_hmac(suite: CipherSuite, key: &[u8], data: &[u8]) -> (tag: Vec<u8>)
    ensures
        tag@ == hmac_of(suite, key@, data@),
        tag@.len() == suite.spec_hash_len(),
{
    match suite {
        CipherSuite::Aes256GcmSha384 => hmac_sha384(key, data),
        _ => hmac_sha256(key, data),
    }
}

/// HKDF-Expand-Label.
pub fn expand_label(
    suite: CipherSuite,
    secret: &[u8],
    label: &str,
    context: &[u8],
    length: usize,
) -> (key: Vec<u8>)
    requires
        length <= suite.spec_hash_len(),
    ensures
        key@ == expanded(suite, secret@, label@, context@, length as nat),
        key@.len() == length,
{
    let mut info: Vec<u8> = Vec::new();
    push_u16(&mut info, length as u16);
    let label_bytes = label.as_bytes();
    info.push(((6 + label_bytes.len() % 256) % 256) as u8);
    push_bytes(&mut info, "tls13 ".as_bytes());
    push_bytes(&mut info, label_bytes);
    info.push((context.len() % 256) as u8);
    push_bytes(&mut info, context);
    assert(info@ =~= hkdf_label(label@, context@, length as nat));
    info.push(1);
    let block = suite_hmac(suite, secret, info.as_slice());
    copy_range(block.as_slice(), 0, length)
}

fn derive_secret(suite: CipherSuite, secret: &[u8], label: &str, hash: &[u8]) -> (derived: Vec<u8>)
    ensures
        derived@ == derived_secret(suite, secret@, label@, hash@),
        derived@.len() == suite.spec_hash_len(),
{
    expand_label(suite, secret, label, hash, suite.hash_len())
}

fn zeros(count: usize) -> (bytes: Vec<u8>)
    ensures
        bytes@ == Seq::new(count as nat, |i: int| 0u8),
{
    let bytes: Vec<u8> = vec![0u8; count];
    assert(bytes@ =~= Seq::new(count as nat, |i: int| 0u8));
    bytes
}

fn salt_after(suite: CipherSuite, secret: &[u8]) -> (salt: Vec<u8>)
    ensures
        salt@ == next_salt(suite, secret@),
{
    let nothing: Vec<u8> = Vec::new();
    let empty_hash = transcript_hash(suite, nothing.as_slice());
    assert(nothing@ =~= Seq::<u8>::empty());
    derive_secret(suite, secret, "derived", empty_hash.as_slice())
}

/// The secrets that protect the encrypted part of the handshake, and the one
/// that the application secrets come from.
pub struct HandshakeKeys {
    pub client_handshake_traffic_secret: Vec<u8>,
    pub server_handshake_traffic_secret: Vec<u8>,
    pub master_secret: Vec<u8>,
}

/// Derive the handshake secrets from the shared secret and the hash of the
/// transcript up to the ServerHello.
pub fn derive_handshake_keys(suite: CipherSuite, shared_secret: &[u8], server_hello_hash: &[u8]) -> (keys:
    HandshakeKeys)
    ensures
        keys.client_handshake_traffic_secret@ == derived_secret(
            suite,
            handshake_secret(suite, shared_secret@),
            "c hs traffic"@,
            server_hello_hash@,
        ),
        keys.server_handshake_traffic_secret@ == derived_secret(
            suite,
            handshake_secret(suite, shared_secret@),
            "s hs traffic"@,
            server_hello_hash@,
        ),
        keys.master_secret@ == master_secret_of(suite, shared_secret@),
{
    let zero = zeros(suite.hash_len());
    assert(zero@ =~= zero_secret(suite));
    let early = suite_hmac(suite, zero.as_slice(), zero.as_slice());
    let salt = salt_after(suite, early.as_slice());
    let handshake = suite_hmac(suite, salt.as_slice(), shared_secret);
    let client = derive_secret(suite, handshake.as_slice(), "c hs traffic", server_hello_hash);
    let server = derive_secret(suite, handshake.as_slice(), "s hs traffic", server_hello_hash);
    let master_salt = salt_after(suite, handshake.as_slice());
    let master = suite_hmac(suite, master_salt.as_slice(), zero.as_slice());
    HandshakeKeys {
        client_handshake_traffic_secret: client,
        server_handshake_traffic_secret: server,
        master_secret: master,
    }
}

/// The record key of a traffic secret.
pub open spec fn traffic_key(suite: CipherSuite, secret: Seq<u8>) -> Seq<u8> {
    expanded(suite, secret, "key"@, Seq::empty(), suite.spec_key_len())
}

/// The record IV of a traffic secret.
pub open spec fn traffic_iv(suite: CipherSuite, secret: Seq<u8>) -> Seq<u8> {
    expanded(suite, secret, "iv"@, Seq::empty(), IV_LEN as nat)
}

/// Derive the record key and the record IV of a traffic secret.
pub fn derive_traffic_keys(secret: &[u8], suite: CipherSuite) -> (keys: (Vec<u8>, Vec<u8>))
    ensures
        keys.0@ == traffic_key(suite, secret@),
        keys.0@.len() == suite.spec_key_len(),
        keys.1@ == traffic_iv(suite, secret@),
        keys.1@.len() == IV_LEN,
{
    let nothing: Vec<u8> = Vec::new();
    assert(nothing@ =~= Seq::<u8>::empty());
    let key = expand_label(suite, secret, "key", nothing.as_slice(), suite.key_len());
    let iv = expand_label(suite, secret, "iv", nothing.as_slice(), IV_LEN);
    (key, iv)
}

/// Derive the client's and the server's application secret from the master
/// secret and the hash of the whole handshake.
pub fn derive_application_secrets(suite: CipherSuite, master_secret: &[u8], handshake_hash: &[u8]) -> (secrets:
    (Vec<u8>, Vec<u8>))
    ensures
        secrets.0@ == derived_secret(suite, master_secret@, "c ap traffic"@, handshake_hash@),
        secrets.1@ == derived_secret(suite, master_secret@, "s ap traffic"@, handshake_hash@),
{
    let client = derive_secret(suite, master_secret, "c ap traffic", handshake_hash);
    let server = derive_secret(suite, master_secret, "s ap traffic", handshake_hash);
    (client, server)
}

/// The `verify_data` of a Finished message.
pub open spec fn finished_data(suite: CipherSuite, base: Seq<u8>, hash: Seq<u8>) -> Seq<u8> {
    hmac_of(
        suite,
        expanded(suite, base, "finished"@, Seq::empty(), suite.spec_hash_len()),
        hash,
    )
}

/// Compute the `verify_data` of a Finished message.
pub fn compute_finished_verify_data(suite: CipherSuite, base_key: &[u8], transcript_hash: &[u8]) -> (data:
    Vec<u8>)
    ensures
        data@ == finished_data(suite, base_key@, transcript_hash@),
        data@.len() == suite.spec_hash_len(),
{
    let nothing: Vec<u8> = Vec::new();
    assert(nothing@ =~= Seq::<u8>::empty());
    let key = expand_label(suite, base_key, "finished", nothing.as_slice(), suite.hash_len());
    suite_hmac(suite, key.as_slice(), transcript_hash)
}

} // verus!
