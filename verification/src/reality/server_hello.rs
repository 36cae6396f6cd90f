//! Reading a ServerHello.
use crate::error::{invalid_data, ErrorKind, Fault, WireError};
use crate::octets::{be16, be24, copy_array, get_u16, read16};
use crate::reality::group::NamedGroup;
use crate::reality::messages::{handshake_message, server_hello_body, server_hello_extensions};
use crate::text::{decimal, hex_word, push_decimal, push_hex_word, text_of};
use vstd::prelude::*;
use vstd::slice::slice_subrange;
use vstd::string::*;

verus! {

/// Length of an X25519 public key or shared secret.
pub const X25519_LEN: usize = 32;

/// ML-KEM-768 ciphertext, FIPS 203.
pub const ML_KEM_768_CIPHERTEXT_LEN: usize = 1088;

/// Uncompressed P-256 point.
pub const P256_PUBLIC_LEN: usize = 65;

/// Server share of the hybrid group: ciphertext, then X25519 public key.
pub const X25519MLKEM768_SERVER_SHARE_LEN: usize = 1088 + 32;

/// Extension code points read out of a ServerHello.
pub const EXTENSION_SUPPORTED_VERSIONS: u16 = 0x002b;

pub const EXTENSION_KEY_SHARE: u16 = 0x0033;

/// The server's `key_share`, parsed into the group it selected.
#[derive(Clone, Debug, PartialEq, Eq)]
pub enum ServerKeyShare {
    X25519([u8; 32]),
    /// Uncompressed SEC1 point.
    Secp256r1(Box<[u8; 65]>),
    X25519MlKem768 { ml_kem_ciphertext: Box<[u8; 1088]>, x25519: [u8; 32] },
}

/// A server's share, with byte strings as sequences.
pub enum ShareShape {
    X25519(Seq<u8>),
    Secp256r1(Seq<u8>),
    X25519MlKem768 { ml_kem_ciphertext: Seq<u8>, x25519: Seq<u8> },
}

impl View for ServerKeyShare {
    type V = ShareShape;

    open spec fn view(&self) -> ShareShape {
        match self {
            ServerKeyShare::X25519(key) => ShareShape::X25519(key@),
            ServerKeyShare::Secp256r1(point) => ShareShape::Secp256r1(point@),
            ServerKeyShare::X25519MlKem768 { ml_kem_ciphertext, x25519 } => {
                ShareShape::X25519MlKem768 {
                    ml_kem_ciphertext: ml_kem_ciphertext@,
                    x25519: x25519@,
                }
            },
        }
    }
}

/// The fault for a message that ends before a field does.
pub open spec fn short_message() -> Fault {
    (ErrorKind::UnexpectedEof, "TLS message ends before its next field"@)
}

fn short_message_error() -> (error: WireError)
    ensures
        error@ == short_message(),
{
    WireError::new(ErrorKind::UnexpectedEof, "TLS message ends before its next field")
}

/// The offset of the cipher suite: behind type, length, version, random and
/// session id.
pub open spec fn suite_offset(hello: Seq<u8>) -> Result<int, Fault> {
    if hello.len() < 39 || hello.len() < 39 + hello[38] {
        Err(short_message())
    } else {
        Ok(39 + hello[38])
    }
}

/// The first and the last offset of the extension block, the last as the
/// message declares it.
pub open spec fn extension_block(hello: Seq<u8>) -> Result<(int, int), Fault> {
    match suite_offset(hello) {
        Err(fault) => Err(fault),
        Ok(at) => if hello.len() < at + 5 {
            Err(short_message())
        } else {
            Ok((at + 5, at + 5 + read16(hello, at + 3)))
        },
    }
}

/// Where the body of the first extension of type `wanted` stands, looking from
/// `at`.
pub open spec fn find_extension(hello: Seq<u8>, at: int, end: int, wanted: u16) -> Result<
    Option<(int, int)>,
    Fault,
>
    decreases hello.len() - at,
{
    if at >= end {
        Ok(None)
    } else if at < 0 || hello.len() < at + 4 {
        Err(short_message())
    } else {
        let body = at + 4;
        let next = body + read16(hello, at + 2);
        if hello.len() < next {
            Err(short_message())
        } else if read16(hello, at) == wanted {
            Ok(Some((body, next)))
        } else {
            find_extension(hello, next, end, wanted)
        }
    }
}

/// The body of the first extension of type `wanted`, if there is one.
pub open spec fn extension_of(hello: Seq<u8>, wanted: u16) -> Result<Option<Seq<u8>>, Fault> {
    match extension_block(hello) {
        Err(fault) => Err(fault),
        Ok((at, end)) => match find_extension(hello, at, end, wanted) {
            Err(fault) => Err(fault),
            Ok(None) => Ok(None),
            Ok(Some((from, to))) => Ok(Some(hello.subrange(from, to))),
        },
    }
}

fn seek_suite(hello: &[u8]) -> (result: Result<usize, WireError>)
    ensures
        match suite_offset(hello@) {
            Ok(at) => result matches Ok(actual) && actual == at && at <= hello@.len(),
            Err(fault) => result matches Err(error) && error@ == fault,
        },
{
    if hello.len() < 39 || hello.len() < 39 + hello[38] as usize {
        return Err(short_message_error());
    }
    Ok(39 + hello[38] as usize)
}

/// The first offset of the extension block and the offset that it declares as
/// its end.
pub fn seek_extensions(hello: &[u8]) -> (result: Result<(usize, usize), WireError>)
    ensures
        match extension_block(hello@) {
            Ok((at, end)) => result matches Ok((first, last)) && first == at && last == end && at
                <= hello@.len(),
            Err(fault) => result matches Err(error) && error@ == fault,
        },
{
    let at = match seek_suite(hello) {
        Ok(at) => at,
        Err(error) => {
            return Err(error);
        },
    };
    if hello.len() - at < 5 {
        return Err(short_message_error());
    }
    let length = get_u16(hello, at + 3) as usize;
    Ok((at + 5, at + 5 + length))
}

/// The body of one ServerHello extension, or `None` when the server did not
/// send it.
pub fn server_hello_extension(hello: &[u8], wanted: u16) -> (result: Result<
    Option<&[u8]>,
    WireError,
>)
    ensures
        match extension_of(hello@, wanted) {
            Ok(Some(body)) => result matches Ok(Some(actual)) && actual@ == body,
            Ok(None) => result matches Ok(None),
            Err(fault) => result matches Err(error) && error@ == fault,
        },
{
    let (first, end) = match seek_extensions(hello) {
        Ok(block) => block,
        Err(error) => {
            return Err(error);
        },
    };
    let mut at: usize = first;
    while at < end
        invariant
            at <= hello@.len(),
            extension_block(hello@) == Ok::<(int, int), Fault>((first as int, end as int)),
            find_extension(hello@, first as int, end as int, wanted) == find_extension(
                hello@,
                at as int,
                end as int,
                wanted,
            ),
        decreases hello.len() - at,
    {
        if hello.len() - at < 4 {
            return Err(short_message_error());
        }
        let extension_type = get_u16(hello, at);
        let length = get_u16(hello, at + 2) as usize;
        let body = at + 4;
        if hello.len() - body < length {
            return Err(short_message_error());
        }
        if extension_type == wanted {
            return Ok(Some(slice_subrange(hello, body, body + length)));
        }
        at = body + length;
    }
    Ok(None)
}

/// The body of the `key_share` extension.
pub open spec fn key_share_of(hello: Seq<u8>) -> Result<Seq<u8>, Fault> {
    match extension_of(hello, EXTENSION_KEY_SHARE) {
        Err(fault) => Err(fault),
        Ok(None) => Err(invalid_data("REALITY ServerHello carries no key_share extension"@)),
        Ok(Some(body)) => Ok(body),
    }
}

fn key_share_body(hello: &[u8]) -> (result: Result<&[u8], WireError>)
    ensures
        match key_share_of(hello@) {
            Ok(body) => result matches Ok(actual) && actual@ == body,
            Err(fault) => result matches Err(error) && error@ == fault,
        },
{
    match server_hello_extension(hello, EXTENSION_KEY_SHARE) {
        Err(error) => Err(error),
        Ok(None) => Err(
            WireError::new(
                ErrorKind::InvalidData,
                "REALITY ServerHello carries no key_share extension",
            ),
        ),
        Ok(Some(body)) => Ok(body),
    }
}

/// The first two bytes of a field as a number.
pub open spec fn leading_u16(field: Seq<u8>) -> Result<int, Fault> {
    if field.len() < 2 {
        Err(short_message())
    } else {
        Ok(read16(field, 0))
    }
}

/// The group that the server selected.
pub open spec fn selected_group(hello: Seq<u8>) -> Result<int, Fault> {
    match key_share_of(hello) {
        Err(fault) => Err(fault),
        Ok(body) => leading_u16(body),
    }
}

/// The group the server selected, straight out of its `key_share` extension.
pub fn extract_server_selected_group(hello: &[u8]) -> (result: Result<u16, WireError>)
    ensures
        match selected_group(hello@) {
            Ok(group) => result matches Ok(actual) && actual == group,
            Err(fault) => result matches Err(error) && error@ == fault,
        },
{
    match key_share_body(hello) {
        Err(error) => Err(error),
        Ok(body) => {
            if body.len() < 2 {
                return Err(short_message_error());
            }
            Ok(get_u16(body, 0))
        },
    }
}

/// The version that the server negotiated, if it says so in an extension.
pub open spec fn selected_version(hello: Seq<u8>) -> Result<Option<int>, Fault> {
    match extension_of(hello, EXTENSION_SUPPORTED_VERSIONS) {
        Err(fault) => Err(fault),
        Ok(None) => Ok(None),
        Ok(Some(body)) => match leading_u16(body) {
            Err(fault) => Err(fault),
            Ok(version) => Ok(Some(version)),
        },
    }
}

/// The TLS version the server negotiated, from `supported_versions`. `None`
/// means that the server answered with something older than TLS 1.3.
pub fn extract_server_selected_version(hello: &[u8]) -> (result: Result<Option<u16>, WireError>)
    ensures
        match selected_version(hello@) {
            Ok(Some(version)) => result matches Ok(Some(actual)) && actual == version,
            Ok(None) => result matches Ok(None),
            Err(fault) => result matches Err(error) && error@ == fault,
        },
{
    match server_hello_extension(hello, EXTENSION_SUPPORTED_VERSIONS) {
        Err(error) => Err(error),
        Ok(None) => Ok(None),
        Ok(Some(body)) => {
            if body.len() < 2 {
                return Err(short_message_error());
            }
            Ok(Some(get_u16(body, 0)))
        },
    }
}

/// The fault for a share of the wrong length.
pub open spec fn share_length_fault(group: NamedGroup, length: int, expected: nat) -> Fault {
    invalid_data(
        "REALITY ServerHello "@ + group.spec_name() + " key share is "@ + decimal(length as nat)
            + " bytes, expected "@ + decimal(expected),
    )
}

fn share_length_error(group: NamedGroup, length: usize, expected: usize) -> (error: WireError)
    ensures
        error@ == share_length_fault(group, length as int, expected as nat),
{
    let mut message = text_of("REALITY ServerHello ");
    message.append(group.name());
    message.append(" key share is ");
    push_decimal(&mut message, length as u64);
    message.append(" bytes, expected ");
    push_decimal(&mut message, expected as u64);
    WireError { kind: ErrorKind::InvalidData, message }
}

/// The group that a code point names.
pub open spec fn group_of(id: int) -> Option<NamedGroup> {
    if id == 0x0017 {
        Some(NamedGroup::Secp256r1)
    } else if id == 0x0018 {
        Some(NamedGroup::Secp384r1)
    } else if id == 0x0019 {
        Some(NamedGroup::Secp521r1)
    } else if id == 0x0100 {
        Some(NamedGroup::Ffdhe2048)
    } else if id == 0x0101 {
        Some(NamedGroup::Ffdhe3072)
    } else if id == 0x001d {
        Some(NamedGroup::X25519)
    } else if id == 0x11ec {
        Some(NamedGroup::X25519MlKem768)
    } else {
        None
    }
}

pub(crate) fn group_with_id(id: u16) -> (group: Option<NamedGroup>)
    ensures
        group == group_of(id as int),
{
    let group = NamedGroup::from_id(id);
    proof {
        if let Some(expected) = group_of(id as int) {
            assert(expected.spec_id() == id);
        }
    }
    group
}

/// The share that a ServerHello `key_share` body holds: group, length, key.
pub open spec fn parsed_share(body: Seq<u8>) -> Result<ShareShape, Fault> {
    if body.len() < 4 {
        Err(short_message())
    } else {
        let length = read16(body, 2);
        match group_of(read16(body, 0)) {
            Some(NamedGroup::X25519) => if length != X25519_LEN {
                Err(share_length_fault(NamedGroup::X25519, length, X25519_LEN as nat))
            } else if body.len() < 4 + X25519_LEN {
                Err(short_message())
            } else {
                Ok(ShareShape::X25519(body.subrange(4, 4 + X25519_LEN)))
            },
            Some(NamedGroup::X25519MlKem768) => if length != X25519MLKEM768_SERVER_SHARE_LEN {
                Err(
                    share_length_fault(
                        NamedGroup::X25519MlKem768,
                        length,
                        X25519MLKEM768_SERVER_SHARE_LEN as nat,
                    ),
                )
            } else if body.len() < 4 + X25519MLKEM768_SERVER_SHARE_LEN {
                Err(short_message())
            } else {
                Ok(
                    ShareShape::X25519MlKem768 {
                        ml_kem_ciphertext: body.subrange(4, 4 + ML_KEM_768_CIPHERTEXT_LEN),
                        x25519: body.subrange(
                            4 + ML_KEM_768_CIPHERTEXT_LEN,
                            4 + X25519MLKEM768_SERVER_SHARE_LEN,
                        ),
                    },
                )
            },
            Some(other) => Err(
                invalid_data(
                    "REALITY ServerHello selected "@ + other.spec_name()
                        + ", which this build names but does not execute"@,
                ),
            ),
            None => Err(
                invalid_data(
                    "REALITY ServerHello selected unknown key exchange group 0x"@ + hex_word(
                        read16(body, 0) as u16,
                    ),
                ),
            ),
        }
    }
}

/// Parse the ServerHello `key_share` body into the group the server chose.
pub fn parse_server_keyshare_extension(body: &[u8]) -> (result: Result<ServerKeyShare, WireError>)
    ensures
        match parsed_share(body@) {
            Ok(share) => result matches Ok(actual) && actual@ == share,
            Err(fault) => result matches Err(error) && error@ == fault,
        },
{
    if body.len() < 4 {
        return Err(short_message_error());
    }
    let group = get_u16(body, 0);
    let length = get_u16(body, 2) as usize;
    match group_with_id(group) {
        Some(NamedGroup::X25519) => {
            if length != X25519_LEN {
                return Err(share_length_error(NamedGroup::X25519, length, X25519_LEN));
            }
            if body.len() < 4 + X25519_LEN {
                return Err(short_message_error());
            }
            let key: [u8; 32] = copy_array(slice_subrange(body, 4, 4 + X25519_LEN));
            Ok(ServerKeyShare::X25519(key))
        },
        Some(NamedGroup::X25519MlKem768) => {
            if length != X25519MLKEM768_SERVER_SHARE_LEN {
                return Err(
                    share_length_error(
                        NamedGroup::X25519MlKem768,
                        length,
                        X25519MLKEM768_SERVER_SHARE_LEN,
                    ),
                );
            }
            if body.len() < 4 + X25519MLKEM768_SERVER_SHARE_LEN {
                return Err(short_message_error());
            }
            let ciphertext: [u8; 1088] = copy_array(
                slice_subrange(body, 4, 4 + ML_KEM_768_CIPHERTEXT_LEN),
            );
            let x25519: [u8; 32] = copy_array(
                slice_subrange(
                    body,
                    4 + ML_KEM_768_CIPHERTEXT_LEN,
                    4 + X25519MLKEM768_SERVER_SHARE_LEN,
                ),
            );
            Ok(ServerKeyShare::X25519MlKem768 { ml_kem_ciphertext: Box::new(ciphertext), x25519 })
        },
        Some(other) => {
            let mut message = text_of("REALITY ServerHello selected ");
            message.append(other.name());
            message.append(", which this build names but does not execute");
            Err(WireError { kind: ErrorKind::InvalidData, message })
        },
        None => {
            let mut message = text_of("REALITY ServerHello selected unknown key exchange group 0x");
            push_hex_word(&mut message, group);
            Err(WireError { kind: ErrorKind::InvalidData, message })
        },
    }
}

/// The share that a ServerHello carries.
pub open spec fn server_share(hello: Seq<u8>) -> Result<ShareShape, Fault> {
    match key_share_of(hello) {
        Err(fault) => Err(fault),
        Ok(body) => parsed_share(body),
    }
}

/// Extract the server's key share from a ServerHello message.
pub fn extract_server_key_share(hello: &[u8]) -> (result: Result<ServerKeyShare, WireError>)
    ensures
        match server_share(hello@) {
            Ok(share) => result matches Ok(actual) && actual@ == share,
            Err(fault) => result matches Err(error) && error@ == fault,
        },
{
    match key_share_body(hello) {
        Err(error) => Err(error),
        Ok(body) => parse_server_keyshare_extension(body),
    }
}

/// The cipher suite that a ServerHello selects.
pub open spec fn selected_suite(hello: Seq<u8>) -> Result<int, Fault> {
    match suite_offset(hello) {
        Err(fault) => Err(fault),
        Ok(at) => if hello.len() < at + 2 {
            Err(short_message())
        } else {
            Ok(read16(hello, at))
        },
    }
}

/// Extract the cipher suite that the server selected.
pub fn extract_server_cipher_suite(hello: &[u8]) -> (result: Result<u16, WireError>)
    ensures
        match selected_suite(hello@) {
            Ok(suite) => result matches Ok(actual) && actual == suite,
            Err(fault) => result matches Err(error) && error@ == fault,
        },
{
    match seek_suite(hello) {
        Err(error) => Err(error),
        Ok(at) => {
            if hello.len() - at < 2 {
                return Err(short_message_error());
            }
            Ok(get_u16(hello, at))
        },
    }
}

/// Extract the random from a ClientHello record: behind the record header, the
/// handshake header and the version.
pub fn extract_client_random(client_hello: &[u8]) -> (result: Result<[u8; 32], WireError>)
    ensures
        if client_hello@.len() < 43 {
            result matches Err(error) && error@ == invalid_data(
                "ClientHello too short to extract random"@,
            )
        } else {
            result matches Ok(random) && random@ == client_hello@.subrange(11, 43)
        },
{
    if client_hello.len() < 43 {
        return Err(
            WireError::new(ErrorKind::InvalidData, "ClientHello too short to extract random"),
        );
    }
    Ok(copy_array(slice_subrange(client_hello, 11, 43)))
}

/// What a ServerHello was made from is what its readers find in it: the random
/// and the suite always, and the version, the group and the share wherever the
/// share leaves room for the length of the extensions. A share that is no X25519
/// key is refused for its length.
pub proof fn server_hello_reads_back(
    random: Seq<u8>,
    session_id: Seq<u8>,
    cipher_suite: u16,
    key_share: Seq<u8>,
)
    requires
        random.len() == 32,
        session_id.len() <= 255,
    ensures
        ({
            let hello = handshake_message(
                2,
                server_hello_body(random, session_id, cipher_suite, key_share),
            );
            &&& selected_suite(hello) == Ok::<int, Fault>(cipher_suite as int)
            &&& hello.subrange(6, 38) == random
            &&& key_share.len() <= 65521 ==> {
                &&& selected_version(hello) == Ok::<Option<int>, Fault>(Some(0x0304))
                &&& selected_group(hello) == Ok::<int, Fault>(0x001d)
                &&& server_share(hello) == if key_share.len() == X25519_LEN {
                    Ok::<ShareShape, Fault>(ShareShape::X25519(key_share))
                } else {
                    Err::<ShareShape, Fault>(
                        share_length_fault(
                            NamedGroup::X25519,
                            key_share.len() as int,
                            X25519_LEN as nat,
                        ),
                    )
                }
            }
        }),
{
    let body = server_hello_body(random, session_id, cipher_suite, key_share);
    let hello = handshake_message(2, body);
    let extensions = server_hello_extensions(key_share);
    let count = extensions.len() as int;
    let head = seq![2u8] + be24(body.len() as int) + seq![3u8, 3u8] + random + seq![
        session_id.len() as u8,
    ] + session_id;
    let middle = be16(cipher_suite) + seq![0u8] + be16(extensions.len() as u16);
    let at: int = 39 + session_id.len() as int;
    assert(hello =~= head + middle + extensions);
    assert(head.len() == at);
    assert(hello[38] == session_id.len() as u8);
    assert(hello.subrange(6, 38) =~= random);
    assert(count == 14 + key_share.len());
    assert(read16(hello, at as int) == cipher_suite) by {
        assert(hello[at as int] == middle[0]);
        assert(hello[at + 1] == middle[1]);
    }
    if key_share.len() <= 65521 {
        assert(read16(hello, at + 3) == count) by {
            assert(hello[at + 3] == middle[3]);
            assert(hello[at + 4] == middle[4]);
        }
        let first = at + 5;
        assert(hello.len() == first + count);
        assert(extension_block(hello) == Ok::<(int, int), Fault>((first, first + count)));
        assert forall|i: int| 0 <= i < count implies #[trigger] hello[first + i]
            == extensions[i] by {}
        lemma_server_extensions(hello, first, key_share);
        let share = hello.subrange(first + 10, first + count);
        assert(share =~= extensions.subrange(10, count));
        let size = be16(key_share.len() as u16);
        assert(share[0] == 0x00 && share[1] == 0x1d && share[2] == size[0] && share[3] == size[1]);
        assert(read16(share, 2) == key_share.len());
        if key_share.len() == X25519_LEN {
            assert(share.subrange(4, 36) =~= key_share);
        }
    }
}

/// Where the two extensions of a ServerHello are found.
proof fn lemma_server_extensions(hello: Seq<u8>, first: int, key_share: Seq<u8>)
    requires
        0 <= first,
        key_share.len() <= 65521,
        hello.len() == first + server_hello_extensions(key_share).len(),
        forall|i: int|
            0 <= i < server_hello_extensions(key_share).len() ==> #[trigger] hello[first + i]
                == server_hello_extensions(key_share)[i],
    ensures
        ({
            let end = first + server_hello_extensions(key_share).len();
            let version = hello.subrange(first + 4, first + 6);
            &&& find_extension(hello, first, end, EXTENSION_SUPPORTED_VERSIONS) == Ok::<
                Option<(int, int)>,
                Fault,
            >(Some((first + 4, first + 6)))
            &&& find_extension(hello, first, end, EXTENSION_KEY_SHARE) == Ok::<
                Option<(int, int)>,
                Fault,
            >(Some((first + 10, end)))
            &&& read16(version, 0) == 0x0304
        }),
{
    let extensions = server_hello_extensions(key_share);
    let end = first + extensions.len();
    let size = be16((key_share.len() + 4) as u16);
    assert(extensions[0] == 0x00 && extensions[1] == 0x2b && extensions[2] == 0x00
        && extensions[3] == 0x02 && extensions[4] == 0x03 && extensions[5] == 0x04);
    assert(extensions[6] == 0x00 && extensions[7] == 0x33 && extensions[8] == size[0]
        && extensions[9] == size[1]);
    assert(read16(hello, first) == 0x2b) by {
        assert(hello[first + 0] == extensions[0]);
        assert(hello[first + 1] == extensions[1]);
    }
    assert(read16(hello, first + 2) == 2) by {
        assert(hello[first + 2] == extensions[2]);
        assert(hello[first + 3] == extensions[3]);
    }
    assert(read16(hello, first + 6) == 0x33) by {
        assert(hello[first + 6] == extensions[6]);
        assert(hello[first + 7] == extensions[7]);
    }
    assert(read16(hello, first + 8) == key_share.len() + 4) by {
        assert(hello[first + 8] == extensions[8]);
        assert(hello[first + 9] == extensions[9]);
    }
    assert(hello[first + 4] == extensions[4]);
    assert(hello[first + 5] == extensions[5]);
    reveal_with_fuel(find_extension, 3);
}

} // verus!
