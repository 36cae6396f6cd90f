//! The handshake messages and record headers that are written whole.
use crate::error::WireError;
use crate::octets::{be16, be24, push_bytes, push_u16, push_u24};
use crate::reality::common::{
    HANDSHAKE_TYPE_CERTIFICATE, HANDSHAKE_TYPE_ENCRYPTED_EXTENSIONS, HANDSHAKE_TYPE_FINISHED,
    HANDSHAKE_TYPE_SERVER_HELLO, VERSION_TLS_1_2_MAJOR, VERSION_TLS_1_2_MINOR,
};
use vstd::prelude::*;

verus! {

/// `legacy_record_version` of the first record: TLS 1.0, as browsers send it.
pub const INITIAL_RECORD_VERSION: [u8; 2] = [0x03, 0x01];

/// A handshake message: type, 24-bit length, body.
pub open spec fn handshake_message(message_type: u8, body: Seq<u8>) -> Seq<u8> {
    seq![message_type] + be24(body.len() as int) + body
}

/// The extensions of a ServerHello: TLS 1.3 and an X25519 share.
pub open spec fn server_hello_extensions(key_share: Seq<u8>) -> Seq<u8> {
    seq![0x00u8, 0x2bu8, 0x00u8, 0x02u8, 0x03u8, 0x04u8] + seq![0x00u8, 0x33u8] + be16(
        (key_share.len() + 4) as u16,
    ) + seq![0x00u8, 0x1du8] + be16(key_share.len() as u16) + key_share
}

/// The body of a ServerHello.
pub open spec fn server_hello_body(
    random: Seq<u8>,
    session_id: Seq<u8>,
    cipher_suite: u16,
    key_share: Seq<u8>,
) -> Seq<u8> {
    seq![VERSION_TLS_1_2_MAJOR, VERSION_TLS_1_2_MINOR] + random + seq![session_id.len() as u8]
        + session_id + be16(cipher_suite) + seq![0u8] + be16(
        server_hello_extensions(key_share).len() as u16,
    ) + server_hello_extensions(key_share)
}

/// Construct a ServerHello. A session id or a key share that does not fit the
/// field that counts it is counted by the low bits of its length.
pub fn construct_server_hello(
    server_random: &[u8; 32],
    session_id: &[u8],
    cipher_suite: u16,
    key_share_data: &[u8],
) -> (result: Result<Vec<u8>, WireError>)
    ensures
        result matches Ok(message) && message@ == handshake_message(
            HANDSHAKE_TYPE_SERVER_HELLO,
            server_hello_body(server_random@, session_id@, cipher_suite, key_share_data@),
        ),
{
    let mut entry: Vec<u8> = vec![0x00, 0x1d];
    push_u16(&mut entry, key_share_data.len() as u16);
    push_bytes(&mut entry, key_share_data);
    let mut extensions: Vec<u8> = vec![0x00, 0x2b, 0x00, 0x02, 0x03, 0x04];
    extensions.push(0x00);
    extensions.push(0x33);
    push_u16(&mut extensions, entry.len() as u16);
    push_bytes(&mut extensions, entry.as_slice());
    assert(extensions@ =~= server_hello_extensions(key_share_data@));
    let mut payload: Vec<u8> = vec![VERSION_TLS_1_2_MAJOR, VERSION_TLS_1_2_MINOR];
    push_bytes(&mut payload, server_random.as_slice());
    payload.push(session_id.len() as u8);
    push_bytes(&mut payload, session_id);
    push_u16(&mut payload, cipher_suite);
    payload.push(0x00);
    push_u16(&mut payload, extensions.len() as u16);
    push_bytes(&mut payload, extensions.as_slice());
    assert(payload@ =~= server_hello_body(
        server_random@,
        session_id@,
        cipher_suite,
        key_share_data@,
    ));
    Ok(message_of(HANDSHAKE_TYPE_SERVER_HELLO, payload.as_slice()))
}

/// A handshake message of this type with this body.
pub fn message_of(message_type: u8, body: &[u8]) -> (message: Vec<u8>)
    ensures
        message@ == handshake_message(message_type, body@),
{
    let mut message: Vec<u8> = Vec::new();
    message.push(message_type);
    push_u24(&mut message, body.len());
    push_bytes(&mut message, body);
    assert(message@ =~= handshake_message(message_type, body@));
    message
}

/// Construct EncryptedExtensions without any extension.
pub fn construct_encrypted_extensions() -> (result: Result<Vec<u8>, WireError>)
    ensures
        result matches Ok(message) && message@ == handshake_message(
            HANDSHAKE_TYPE_ENCRYPTED_EXTENSIONS,
            seq![0u8, 0u8],
        ),
{
    let body: Vec<u8> = vec![0x00, 0x00];
    assert(body@ =~= seq![0u8, 0u8]);
    Ok(message_of(HANDSHAKE_TYPE_ENCRYPTED_EXTENSIONS, body.as_slice()))
}

/// The body of a Certificate message with one certificate: an empty request
/// context, the list, the entry, no entry extensions.
pub open spec fn certificate_body(der: Seq<u8>) -> Seq<u8> {
    seq![0u8] + be24(der.len() as int + 5) + be24(der.len() as int) + der + seq![0u8, 0u8]
}

/// Construct a Certificate message from a certificate's DER bytes.
pub fn construct_certificate(der: &[u8]) -> (result: Result<Vec<u8>, WireError>)
    ensures
        result matches Ok(message) && message@ == handshake_message(
            HANDSHAKE_TYPE_CERTIFICATE,
            certificate_body(der@),
        ),
{
    let mut entry: Vec<u8> = Vec::new();
    push_u24(&mut entry, der.len());
    push_bytes(&mut entry, der);
    entry.push(0x00);
    entry.push(0x00);
    let mut body: Vec<u8> = Vec::new();
    body.push(0x00);
    push_u24(&mut body, entry.len());
    push_bytes(&mut body, entry.as_slice());
    assert(body@ =~= certificate_body(der@));
    Ok(message_of(HANDSHAKE_TYPE_CERTIFICATE, body.as_slice()))
}

/// Construct a Finished message.
pub fn construct_finished(verify_data: &[u8]) -> (result: Result<Vec<u8>, WireError>)
    ensures
        result matches Ok(message) && message@ == handshake_message(
            HANDSHAKE_TYPE_FINISHED,
            verify_data@,
        ),
{
    Ok(message_of(HANDSHAKE_TYPE_FINISHED, verify_data))
}

/// A record header: type, version, length.
pub open spec fn record_header_bytes(record_type: u8, version: Seq<u8>, length: u16) -> Seq<u8> {
    seq![record_type] + version + be16(length)
}

/// Write a TLS record header.
pub fn write_record_header(record_type: u8, version: [u8; 2], length: u16) -> (header: Vec<u8>)
    ensures
        header@ == record_header_bytes(record_type, version@, length),
        header@.len() == 5,
{
    let mut header: Vec<u8> = Vec::new();
    header.push(record_type);
    push_bytes(&mut header, version.as_slice());
    push_u16(&mut header, length);
    assert(header@ =~= record_header_bytes(record_type, version@, length));
    header
}

} // verus!
