//! Constants of the TLS record and handshake layers, and the removal of the
//! content-type trailer from a decrypted record.
use crate::error::{invalid_data, ErrorKind, Fault, WireError};
use crate::text::{hex_byte, push_hex_byte, text_of};
use vstd::prelude::*;

verus! {

pub const CONTENT_TYPE_CHANGE_CIPHER_SPEC: u8 = 0x14;

pub const CONTENT_TYPE_ALERT: u8 = 0x15;

pub const CONTENT_TYPE_HANDSHAKE: u8 = 0x16;

pub const CONTENT_TYPE_APPLICATION_DATA: u8 = 0x17;

pub const ALERT_LEVEL_WARNING: u8 = 0x01;

pub const ALERT_DESC_CLOSE_NOTIFY: u8 = 0x00;

pub const VERSION_TLS_1_2_MAJOR: u8 = 0x03;

pub const VERSION_TLS_1_2_MINOR: u8 = 0x03;

pub const VERSION_TLS_1_0_MAJOR: u8 = 0x03;

pub const VERSION_TLS_1_0_MINOR: u8 = 0x01;

/// Offset of `legacy_session_id` in a hello handshake message: type, length,
/// version, random and the length byte of the session id stand before it.
pub const HELLO_SESSION_ID_OFFSET: usize = 1 + 3 + 2 + 32 + 1;

/// The session id always has 32 bytes: 16 of encrypted metadata and a 16-byte tag.
pub const HELLO_SESSION_ID_LEN: usize = 32;

pub const HANDSHAKE_TYPE_SERVER_HELLO: u8 = 2;

pub const HANDSHAKE_TYPE_ENCRYPTED_EXTENSIONS: u8 = 8;

pub const HANDSHAKE_TYPE_CERTIFICATE: u8 = 11;

/// RFC 8879 `compressed_certificate`. The hello offers certificate compression
/// because browsers do; a compressed certificate is only ever refused.
pub const HANDSHAKE_TYPE_COMPRESSED_CERTIFICATE: u8 = 25;

pub const HANDSHAKE_TYPE_CERTIFICATE_VERIFY: u8 = 15;

pub const HANDSHAKE_TYPE_FINISHED: u8 = 20;

/// Largest TLS 1.3 ciphertext payload (RFC 8446: 2^14 bytes and 256 of overhead).
pub const MAX_TLS_CIPHERTEXT_LEN: usize = 16384 + 256;

/// Largest plaintext of one TLS 1.3 record (RFC 8446 section 5.1).
pub const MAX_TLS_PLAINTEXT_LEN: usize = 16384;

/// Content type, protocol version and length.
pub const TLS_RECORD_HEADER_SIZE: usize = 5;

/// Largest record with its header.
pub const TLS_MAX_RECORD_SIZE: usize = 16640 + 5;

/// Capacity of the buffer that ciphertext is read into: two largest records.
pub const CIPHERTEXT_READ_BUF_CAPACITY: usize = 16645 * 2;

/// Capacity of the buffer that decrypted data is read from.
pub const PLAINTEXT_READ_BUF_CAPACITY: usize = 16645 * 2;

/// Limit on queued plaintext and ciphertext together.
pub const OUTGOING_BUFFER_LIMIT: usize = 64 * 1024;

/// The content types that an encrypted record may carry.
pub open spec fn is_inner_content_type(content_type: u8) -> bool {
    content_type == CONTENT_TYPE_HANDSHAKE || content_type == CONTENT_TYPE_APPLICATION_DATA
        || content_type == CONTENT_TYPE_ALERT
}

/// The fault for a content type that an encrypted record may not carry.
pub open spec fn invalid_content_type(content_type: u8) -> Fault {
    invalid_data("Invalid content type: 0x"@ + hex_byte(content_type))
}

fn content_type_error(content_type: u8) -> (error: WireError)
    ensures
        error@ == invalid_content_type(content_type),
{
    let mut message = text_of("Invalid content type: 0x");
    push_hex_byte(&mut message, content_type);
    WireError { kind: ErrorKind::InvalidData, message }
}

fn content_type_is_inner(content_type: u8) -> (inner: bool)
    ensures
        inner == is_inner_content_type(content_type),
{
    content_type == CONTENT_TYPE_HANDSHAKE || content_type == CONTENT_TYPE_APPLICATION_DATA
        || content_type == CONTENT_TYPE_ALERT
}

/// What `bytes` is without the zeros at its end.
pub open spec fn without_trailing_zeros(bytes: Seq<u8>) -> Seq<u8>
    decreases bytes.len(),
{
    if bytes.len() > 0 && bytes.last() == 0 {
        without_trailing_zeros(bytes.drop_last())
    } else {
        bytes
    }
}

/// The content type of an unpadded plaintext and the length before it.
pub open spec fn split_content_type(plaintext: Seq<u8>) -> Result<(u8, int), Fault> {
    if plaintext.len() == 0 {
        Err(invalid_data("Empty plaintext"@))
    } else if !is_inner_content_type(plaintext.last()) {
        Err(invalid_content_type(plaintext.last()))
    } else {
        Ok((plaintext.last(), plaintext.len() - 1))
    }
}

/// The content type of a plaintext that may end in zero padding.
pub open spec fn padded_content_type(plaintext: Seq<u8>) -> Result<u8, Fault> {
    let content = without_trailing_zeros(plaintext);
    if plaintext.len() == 0 {
        Err(invalid_data("Empty plaintext"@))
    } else if content.len() == 0 {
        Err(invalid_data("Plaintext is all zeros"@))
    } else if !is_inner_content_type(content.last()) {
        Err(invalid_content_type(content.last()))
    } else {
        Ok(content.last())
    }
}

/// Return the content type and the length of the content before it.
pub fn strip_content_type_slice(plaintext: &[u8]) -> (result: Result<(u8, usize), WireError>)
    ensures
        match split_content_type(plaintext@) {
            Ok((content_type, length)) => result matches Ok((actual, actual_length))
                && actual == content_type && actual_length == length,
            Err(fault) => result matches Err(error) && error@ == fault,
        },
{
    if plaintext.is_empty() {
        return Err(WireError::new(ErrorKind::InvalidData, "Empty plaintext"));
    }
    let content_type = plaintext[plaintext.len() - 1];
    if !content_type_is_inner(content_type) {
        return Err(content_type_error(content_type));
    }
    Ok((content_type, plaintext.len() - 1))
}

/// Remove the content-type trailer of an unpadded plaintext.
pub fn strip_content_type(plaintext: &mut Vec<u8>) -> (result: Result<u8, WireError>)
    ensures
        match split_content_type(old(plaintext)@) {
            Ok((content_type, length)) => result == Ok::<u8, WireError>(content_type)
                && final(plaintext)@ == old(plaintext)@.subrange(0, length),
            Err(fault) => result matches Err(error) && error@ == fault && final(plaintext)@ == old(
                plaintext,
            )@,
        },
{
    match strip_content_type_slice(plaintext.as_slice()) {
        Ok((content_type, valid_len)) => {
            plaintext.truncate(valid_len);
            Ok(content_type)
        },
        Err(error) => Err(error),
    }
}

/// Remove RFC 8446 section 5.4 padding and the content-type trailer.
///
/// The padding and the trailer are gone afterwards even where the trailer is
/// refused.
pub fn strip_content_type_with_padding(plaintext: &mut Vec<u8>) -> (result: Result<u8, WireError>)
    ensures
        match padded_content_type(old(plaintext)@) {
            Ok(content_type) => result == Ok::<u8, WireError>(content_type),
            Err(fault) => result matches Err(error) && error@ == fault,
        },
        final(plaintext)@ == {
            let content = without_trailing_zeros(old(plaintext)@);
            if content.len() == 0 {
                content
            } else {
                content.drop_last()
            }
        },
{
    if plaintext.is_empty() {
        return Err(WireError::new(ErrorKind::InvalidData, "Empty plaintext"));
    }
    while plaintext.len() > 0 && plaintext[plaintext.len() - 1] == 0
        invariant
            without_trailing_zeros(plaintext@) == without_trailing_zeros(old(plaintext)@),
        decreases plaintext.len(),
    {
        let _ = plaintext.pop();
    }
    match plaintext.pop() {
        None => Err(WireError::new(ErrorKind::InvalidData, "Plaintext is all zeros")),
        Some(content_type) => {
            if !content_type_is_inner(content_type) {
                return Err(content_type_error(content_type));
            }
            Ok(content_type)
        },
    }
}

proof fn lemma_trailing_zeros(content: Seq<u8>, padding: nat)
    requires
        content.len() == 0 || content.last() != 0,
    ensures
        without_trailing_zeros(content + Seq::new(padding, |i: int| 0u8)) == content,
    decreases padding,
{
    let padded = content + Seq::new(padding, |i: int| 0u8);
    if padding == 0 {
        assert(padded =~= content);
    } else {
        assert(padded.drop_last() =~= content + Seq::new((padding - 1) as nat, |i: int| 0u8));
        lemma_trailing_zeros(content, (padding - 1) as nat);
    }
}

/// Padding is invisible: a content of any length, its content type and any
/// number of zeros give back that content type and that content.
pub proof fn padding_hides_nothing(content: Seq<u8>, content_type: u8, padding: nat)
    requires
        is_inner_content_type(content_type),
    ensures
        ({
            let plaintext = content.push(content_type) + Seq::new(padding, |i: int| 0u8);
            &&& padded_content_type(plaintext) == Ok::<u8, Fault>(content_type)
            &&& without_trailing_zeros(plaintext).drop_last() == content
        }),
{
    lemma_trailing_zeros(content.push(content_type), padding);
    assert(content.push(content_type).drop_last() =~= content);
}

} // verus!
