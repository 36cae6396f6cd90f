//! How client and server know each other: the authentication key, the session
//! id that carries it, and the certificate that answers it.
use crate::crypto::{
    aes_256_gcm_opened, aes_256_gcm_seal, aes_256_gcm_sealed, constant_time_eq, ed25519_verifies,
    ed25519_verify, hmac_sha256, hmac_sha256_of, hmac_sha512, hmac_sha512_of,
};
use crate::error::{invalid_data, ErrorKind, Fault, WireError};
use crate::octets::{be32, copy_array, get_u16, get_u24, push_bytes, push_u32, read16, read24};
use crate::reality::common::{HANDSHAKE_TYPE_CERTIFICATE, HANDSHAKE_TYPE_CERTIFICATE_VERIFY};
use vstd::prelude::*;
use vstd::slice::slice_subrange;
use vstd::string::*;
use vstd::utf8::encode_utf8;

verus! {

/// The authentication key: HKDF-SHA256 of the shared secret, salted with the
/// front of the client's random.
pub open spec fn auth_key_of(shared_secret: Seq<u8>, salt: Seq<u8>, info: Seq<u8>) -> Seq<u8> {
    hmac_sha256_of(hmac_sha256_of(salt, shared_secret), info.push(1))
}

/// Derive the authentication key.
pub fn derive_auth_key(shared_secret: &[u8; 32], salt: &[u8], info: &[u8]) -> (key: [u8; 32])
    ensures
        key@ == auth_key_of(shared_secret@, salt@, info@),
{
    let extracted = hmac_sha256(salt, shared_secret.as_slice());
    let mut block: Vec<u8> = Vec::new();
    push_bytes(&mut block, info);
    block.push(1);
    assert(block@ =~= info@.push(1));
    let key = hmac_sha256(extracted.as_slice(), block.as_slice());
    copy_array(key.as_slice())
}

/// The metadata that a session id carries: protocol version, time, short id.
pub open spec fn session_metadata(timestamp: u32, short_id: Seq<u8>) -> Seq<u8> {
    seq![1u8, 8u8, 0u8, 0u8] + be32(timestamp) + short_id
}

/// The metadata of a session id.
pub fn session_id_metadata(timestamp: u32, short_id: &[u8; 8]) -> (metadata: [u8; 16])
    ensures
        metadata@ == session_metadata(timestamp, short_id@),
{
    let mut bytes: Vec<u8> = vec![1, 8, 0, 0];
    push_u32(&mut bytes, timestamp);
    push_bytes(&mut bytes, short_id.as_slice());
    assert(bytes@ =~= session_metadata(timestamp, short_id@));
    copy_array(bytes.as_slice())
}

/// The session id on the wire: the metadata sealed over the rest of the hello.
pub open spec fn sealed_session_id(
    metadata: Seq<u8>,
    auth_key: Seq<u8>,
    nonce: Seq<u8>,
    hello: Seq<u8>,
) -> Result<Seq<u8>, Fault> {
    match aes_256_gcm_sealed(auth_key, nonce, hello, metadata) {
        None => Err(invalid_data("REALITY session id encryption failed"@)),
        Some(sealed) => Ok(sealed),
    }
}

/// Encrypt the session id with the zeroed hello as additional data. The server
/// opens what comes out to the same metadata.
pub fn encrypt_session_id(metadata: &[u8; 16], auth_key: &[u8; 32], nonce: &[u8], hello: &[u8]) -> (result:
    Result<[u8; 32], WireError>)
    ensures
        match sealed_session_id(metadata@, auth_key@, nonce@, hello@) {
            Ok(sealed) => result matches Ok(actual) && actual@ == sealed,
            Err(fault) => result matches Err(error) && error@ == fault,
        },
        result matches Ok(sealed) ==> aes_256_gcm_opened(auth_key@, nonce@, hello@, sealed@) == Some(
            metadata@,
        ),
{
    match aes_256_gcm_seal(auth_key.as_slice(), nonce, hello, metadata.as_slice()) {
        None => Err(WireError::new(ErrorKind::InvalidData, "REALITY session id encryption failed")),
        Some(sealed) => Ok(copy_array(sealed.as_slice())),
    }
}

/// Where the first certificate's DER stands in a Certificate message: behind
/// the handshake header, the request context and two lengths.
pub open spec fn certificate_range(message: Seq<u8>) -> Result<(int, int), Fault> {
    let malformed = invalid_data("REALITY Certificate message is malformed"@);
    if message.len() < 5 || message[0] != HANDSHAKE_TYPE_CERTIFICATE {
        Err(malformed)
    } else {
        let list = 5 + message[4];
        if message.len() < list + 6 || message.len() < list + 6 + read24(message, list + 3) {
            Err(malformed)
        } else {
            Ok((list + 6, list + 6 + read24(message, list + 3)))
        }
    }
}

/// The first certificate of a Certificate message.
pub open spec fn certificate_in(message: Seq<u8>) -> Result<Seq<u8>, Fault> {
    match certificate_range(message) {
        Err(fault) => Err(fault),
        Ok((from, to)) => Ok(message.subrange(from, to)),
    }
}

/// Extract the first certificate of a Certificate message.
pub fn extract_certificate_der(message: &[u8]) -> (result: Result<&[u8], WireError>)
    ensures
        match certificate_in(message@) {
            Ok(der) => result matches Ok(actual) && actual@ == der,
            Err(fault) => result matches Err(error) && error@ == fault,
        },
{
    if message.len() < 5 || message[0] != HANDSHAKE_TYPE_CERTIFICATE {
        return Err(
            WireError::new(ErrorKind::InvalidData, "REALITY Certificate message is malformed"),
        );
    }
    let list: usize = 5 + message[4] as usize;
    if message.len() < list + 6 || message.len() - (list + 6) < get_u24(message, list + 3) {
        return Err(
            WireError::new(ErrorKind::InvalidData, "REALITY Certificate message is malformed"),
        );
    }
    let length = get_u24(message, list + 3);
    Ok(slice_subrange(message, list + 6, list + 6 + length))
}

/// The algorithm identifier of Ed25519 and the head of the bit string that
/// holds a key of it.
pub open spec fn ed25519_marker() -> Seq<u8> {
    seq![0x06u8, 0x03u8, 0x2bu8, 0x65u8, 0x70u8, 0x03u8, 0x21u8, 0x00u8]
}

/// Whether an Ed25519 key stands behind a marker at `at`.
pub open spec fn key_marked_at(der: Seq<u8>, at: int) -> bool {
    0 <= at && at + 40 <= der.len() && der.subrange(at, at + 8) == ed25519_marker()
}

/// The first Ed25519 public key at or behind `at`.
pub open spec fn ed25519_key_from(der: Seq<u8>, at: int) -> Option<Seq<u8>>
    decreases der.len() - at,
{
    if at + 40 > der.len() {
        None
    } else if key_marked_at(der, at) {
        Some(der.subrange(at + 8, at + 40))
    } else {
        ed25519_key_from(der, at + 1)
    }
}

/// The Ed25519 public key of a certificate.
pub open spec fn certificate_key(der: Seq<u8>) -> Result<Seq<u8>, Fault> {
    match ed25519_key_from(der, 0) {
        None => Err(invalid_data("REALITY certificate carries no Ed25519 public key"@)),
        Some(key) => Ok(key),
    }
}

/// Extract the Ed25519 public key of a certificate.
pub fn extract_ed25519_public_key(der: &[u8]) -> (result: Result<[u8; 32], WireError>)
    ensures
        match certificate_key(der@) {
            Ok(key) => result matches Ok(actual) && actual@ == key,
            Err(fault) => result matches Err(error) && error@ == fault,
        },
{
    let mut at: usize = 0;
    while der.len() >= 40 && at <= der.len() - 40
        invariant
            at <= der@.len(),
            ed25519_key_from(der@, 0) == ed25519_key_from(der@, at as int),
        decreases der@.len() - at,
    {
        let marked = der[at] == 0x06 && der[at + 1] == 0x03 && der[at + 2] == 0x2b && der[at + 3]
            == 0x65 && der[at + 4] == 0x70 && der[at + 5] == 0x03 && der[at + 6] == 0x21 && der[at
            + 7] == 0x00;
        proof {
            let window = der@.subrange(at as int, at + 8);
            assert(window.len() == 8);
            if marked {
                assert(window =~= ed25519_marker());
            } else if window == ed25519_marker() {
                assert(window[0] == 0x06 && window[1] == 0x03 && window[2] == 0x2b && window[3]
                    == 0x65 && window[4] == 0x70 && window[5] == 0x03 && window[6] == 0x21
                    && window[7] == 0x00);
            }
        }
        if marked {
            return Ok(copy_array(slice_subrange(der, at + 8, at + 40)));
        }
        at = at + 1;
    }
    Err(
        WireError::new(
            ErrorKind::InvalidData,
            "REALITY certificate carries no Ed25519 public key",
        ),
    )
}

/// What verification makes of a certificate: its signature field, the last 64
/// bytes, has to be the HMAC of its public key under the authentication key.
pub open spec fn certificate_verdict(der: Seq<u8>, auth_key: Seq<u8>) -> Result<(), Fault> {
    match certificate_key(der) {
        Err(fault) => Err(fault),
        Ok(key) => if der.len() < 64 || der.subrange(der.len() - 64, der.len() as int)
            != hmac_sha512_of(auth_key, key) {
            Err((ErrorKind::PermissionDenied, "REALITY certificate authentication failed"@))
        } else {
            Ok(())
        },
    }
}

/// Verify that a certificate was made by someone who has the authentication
/// key.
pub fn verify_certificate_hmac(der: &[u8], auth_key: &[u8; 32]) -> (result: Result<(), WireError>)
    ensures
        match certificate_verdict(der@, auth_key@) {
            Ok(_) => result is Ok,
            Err(fault) => result matches Err(error) && error@ == fault,
        },
{
    let key = match extract_ed25519_public_key(der) {
        Ok(key) => key,
        Err(error) => {
            return Err(error);
        },
    };
    let expected = hmac_sha512(auth_key.as_slice(), key.as_slice());
    if der.len() < 64 || !constant_time_eq(
        slice_subrange(der, der.len() - 64, der.len()),
        expected.as_slice(),
    ) {
        return Err(
            WireError::new(
                ErrorKind::PermissionDenied,
                "REALITY certificate authentication failed",
            ),
        );
    }
    Ok(())
}

/// The signature of a CertificateVerify message: Ed25519, 64 bytes.
pub open spec fn verify_signature_in(message: Seq<u8>) -> Result<Seq<u8>, Fault> {
    if message.len() != 72 || message[0] != HANDSHAKE_TYPE_CERTIFICATE_VERIFY {
        Err(invalid_data("REALITY CertificateVerify message is malformed"@))
    } else if read16(message, 4) != 0x0807 {
        Err(invalid_data("REALITY CertificateVerify does not use Ed25519"@))
    } else if read16(message, 6) != 64 {
        Err(invalid_data("REALITY CertificateVerify message is malformed"@))
    } else {
        Ok(message.subrange(8, 72))
    }
}

/// Extract the signature of a CertificateVerify message.
pub fn extract_certificate_verify_signature(message: &[u8]) -> (result: Result<Vec<u8>, WireError>)
    ensures
        match verify_signature_in(message@) {
            Ok(signature) => result matches Ok(actual) && actual@ == signature,
            Err(fault) => result matches Err(error) && error@ == fault,
        },
{
    if message.len() != 72 || message[0] != HANDSHAKE_TYPE_CERTIFICATE_VERIFY {
        return Err(
            WireError::new(
                ErrorKind::InvalidData,
                "REALITY CertificateVerify message is malformed",
            ),
        );
    }
    if get_u16(message, 4) != 0x0807 {
        return Err(
            WireError::new(
                ErrorKind::InvalidData,
                "REALITY CertificateVerify does not use Ed25519",
            ),
        );
    }
    if get_u16(message, 6) != 64 {
        return Err(
            WireError::new(
                ErrorKind::InvalidData,
                "REALITY CertificateVerify message is malformed",
            ),
        );
    }
    Ok(crate::octets::copy_range(message, 8, 72))
}

/// What a server signs in its CertificateVerify message.
pub open spec fn signed_content(transcript_hash: Seq<u8>) -> Seq<u8> {
    Seq::new(64, |i: int| 0x20u8) + encode_utf8("TLS 1.3, server CertificateVerify"@) + seq![0u8]
        + transcript_hash
}

/// The content that a CertificateVerify signature covers.
pub fn certificate_verify_content(transcript_hash: &[u8]) -> (content: Vec<u8>)
    ensures
        content@ == signed_content(transcript_hash@),
{
    let mut content: Vec<u8> = vec![0x20u8; 64];
    push_bytes(&mut content, "TLS 1.3, server CertificateVerify".as_bytes());
    content.push(0);
    push_bytes(&mut content, transcript_hash);
    assert(content@ =~= signed_content(transcript_hash@));
    content
}

/// Verify the signature of a CertificateVerify message.
pub fn verify_certificate_verify_signature(
    public_key: &[u8; 32],
    signature: &[u8],
    transcript_hash: &[u8],
) -> (result: Result<(), WireError>)
    ensures
        result is Ok <==> ed25519_verifies(
            public_key@,
            signed_content(transcript_hash@),
            signature@,
        ),
        result matches Err(error) ==> error@ == (
            ErrorKind::PermissionDenied,
            "REALITY CertificateVerify signature is invalid"@,
        ),
{
    let content = certificate_verify_content(transcript_hash);
    if !ed25519_verify(public_key.as_slice(), content.as_slice(), signature) {
        return Err(
            WireError::new(
                ErrorKind::PermissionDenied,
                "REALITY CertificateVerify signature is invalid",
            ),
        );
    }
    Ok(())
}

} // verus!
