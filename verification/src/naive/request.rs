//! The CONNECT request, the server's answer to it, and how often it is tried.
use crate::address_text::{ipv6_of, read_ipv6};
use crate::crypto::wipe;
use crate::naive::error::{NaiveError, NaiveFault};
use crate::naive::padding::{
    a_padding_header_uses_only_those_symbols, fill_nonindex_header_value, header_value,
    NONINDEX_CODES,
};
use crate::octets::{bytes_equal, push_bytes, to_vec};
use crate::random::{random_below, random_u64};
use crate::text::{
    base64, base64_of, decimal, lemma_base64_symbols, push_decimal, text_of, utf8_text,
};
use vstd::prelude::*;
use vstd::slice::slice_subrange;
use vstd::string::*;
use vstd::utf8::{
    decode_utf8, encode_utf8, is_ascii_chars, is_ascii_chars_encode_utf8, is_leading_byte_width_1,
    partial_valid_utf8, partial_valid_utf8_extend_ascii_block, valid_utf8,
};

verus! {

/// The method of every request.
pub const CONNECT_METHOD: &'static str = "CONNECT";

/// The header whose value is padding.
pub const PADDING_HEADER: &'static str = "padding";

/// The header that names the padding types that the client supports.
pub const PADDING_TYPE_REQUEST_HEADER: &'static str = "padding-type-request";

/// The header that names the padding type that the server has chosen.
pub const PADDING_TYPE_REPLY_HEADER: &'static str = "padding-type-reply";

/// The padding types that the client supports, most preferred first.
pub const PADDING_TYPE_REQUEST: &'static str = "1, 0";

/// The header that carries credentials.
pub const AUTHORIZATION_HEADER: &'static str = "proxy-authorization";

/// The least and the greatest length of a padding header.
pub const MIN_PADDING_HEADER: usize = 16;

pub const MAX_PADDING_HEADER: usize = 32;

/// How long a handshake may take unless configured otherwise, in milliseconds.
pub const DEFAULT_HANDSHAKE_TIMEOUT_MS: u64 = 15_000;

/// How often a CONNECT is tried on a fresh connection. A server that refuses every
/// stream surfaces as an error, not as an endless loop.
pub const MAX_CONNECT_ATTEMPTS: usize = 3;

/// A padding type.
#[derive(Debug, Clone, Copy, PartialEq, Eq, Structural)]
pub enum PaddingType {
    /// No padding.
    Unpadded,
    /// Padded frames.
    Variant1,
}

/// The authority of a host and a port: an IPv6 address stands in brackets.
pub open spec fn authority_of(host: Seq<char>, port: u16) -> Seq<char> {
    if ipv6_of(encode_utf8(host)) is Some {
        "["@ + host + "]:"@ + decimal(port as nat)
    } else {
        host + ":"@ + decimal(port as nat)
    }
}

/// The authority of a host and a port.
pub fn authority(host: &str, port: u16) -> (text: String)
    ensures
        text@ == authority_of(host@, port),
{
    let bracketed = read_ipv6(host.as_bytes()).is_some();
    let mut text = text_of(
        if bracketed {
            "["
        } else {
            ""
        },
    );
    text.append(host);
    text.append(
        if bracketed {
            "]:"
        } else {
            ":"
        },
    );
    push_decimal(&mut text, port as u64);
    proof {
        reveal_strlit("");
        assert(""@ + host@ =~= host@);
    }
    text
}

/// What a CONNECT target is, read as a URI: whether it has a scheme, whether it
/// has a path, and its host.
#[derive(Clone, Debug)]
pub struct TargetParts {
    pub scheme: bool,
    pub path: bool,
    pub host: Option<String>,
}

impl View for TargetParts {
    type V = (bool, bool, Option<Seq<char>>);

    open spec fn view(&self) -> (bool, bool, Option<Seq<char>>) {
        (
            self.scheme,
            self.path,
            match self.host {
                Some(host) => Some(host@),
                None => None,
            },
        )
    }
}

/// What a text is, read as a URI, where it is one.
pub uninterp spec fn uri_parts(text: Seq<char>) -> Option<(bool, bool, Option<Seq<char>>)>;

/// `http::Uri::from_str`, with `scheme`, `path_and_query` and `authority` of what
/// it returns: the parts of a URI, or nothing where the text is not one.
#[verifier::external_body]
fn parse_target(text: &str) -> (parts: Option<TargetParts>)
    ensures
        match uri_parts(text@) {
            Some(expected) => parts matches Some(actual) && actual@ == expected,
            None => parts is None,
        },
{
    let uri: http::Uri = text.parse().ok()?;
    Some(TargetParts {
        scheme: uri.scheme().is_some(),
        path: uri.path_and_query().is_some(),
        host: uri.authority().map(|authority| authority.host().to_owned()),
    })
}

/// Why a target is refused: a CONNECT names a bare authority with a host.
pub open spec fn target_fault(parts: Option<(bool, bool, Option<Seq<char>>)>) -> Option<
    NaiveFault,
> {
    match parts {
        None => Some(
            NaiveFault::Invalid("the destination is not a valid HTTP/2 authority"@),
        ),
        Some((scheme, path, host)) => if !scheme && !path && (host matches Some(name)
            && name.len() > 0) {
            None
        } else {
            Some(
                NaiveFault::Invalid("a CONNECT target must be bare authority-form with a host"@),
            )
        },
    }
}

/// Check a target, given its parts.
pub fn check_target(parts: Option<&TargetParts>) -> (result: Result<(), NaiveError>)
    ensures
        match target_fault(
            match parts {
                Some(parts) => Some(parts@),
                None => None,
            },
        ) {
            None => result is Ok,
            Some(fault) => result matches Err(error) && error@ == fault,
        },
{
    let found = match parts {
        Some(found) => found,
        None => {
            return Err(NaiveError::Invalid("the destination is not a valid HTTP/2 authority"));
        },
    };
    let has_host = match &found.host {
        Some(host) => host.as_str().unicode_len() > 0,
        None => false,
    };
    if found.scheme || found.path || !has_host {
        return Err(
            NaiveError::Invalid("a CONNECT target must be bare authority-form with a host"),
        );
    }
    Ok(())
}

/// Whether a byte may stand in a header value.
pub open spec fn header_byte(byte: u8) -> bool {
    (byte >= 32 && byte != 127) || byte == 9
}

/// Whether bytes may be a header value.
pub open spec fn legal_value(value: Seq<u8>) -> bool {
    forall|i: int| 0 <= i < value.len() ==> header_byte(#[trigger] value[i])
}

fn is_legal_value(value: &[u8]) -> (legal: bool)
    ensures
        legal == legal_value(value@),
{
    for i in 0..value.len()
        invariant
            forall|j: int| 0 <= j < i ==> header_byte(#[trigger] value@[j]),
    {
        let byte = value[i];
        if !((byte >= 32 && byte != 127) || byte == 9) {
            assert(!header_byte(value@[i as int]));
            return false;
        }
    }
    true
}

/// The value of an authorization header, given what base64 makes of the
/// credentials.
pub open spec fn authorization_of(encoded: Seq<char>) -> Result<Seq<u8>, NaiveFault> {
    let value = encode_utf8("Basic "@) + encode_utf8(encoded);
    if legal_value(value) {
        Ok(value)
    } else {
        Err(NaiveFault::Invalid("the proxy credentials are not a legal header"@))
    }
}

/// The value of an authorization header, given what base64 makes of the
/// credentials.
pub fn basic_authorization(encoded: &str) -> (result: Result<Vec<u8>, NaiveError>)
    ensures
        match authorization_of(encoded@) {
            Ok(value) => result matches Ok(actual) && actual@ == value,
            Err(fault) => result matches Err(error) && error@ == fault,
        },
{
    let mut value = to_vec("Basic ".as_bytes());
    push_bytes(&mut value, encoded.as_bytes());
    if is_legal_value(value.as_slice()) {
        Ok(value)
    } else {
        Err(NaiveError::Invalid("the proxy credentials are not a legal header"))
    }
}

/// What base64 is given for credentials.
pub open spec fn credential_bytes(username: Seq<char>, password: Seq<char>) -> Seq<u8> {
    encode_utf8(username) + seq![58u8] + encode_utf8(password)
}

/// The authorization for credentials. A user's name may not hold a colon, which is
/// what separates it from the password.
pub open spec fn authorization(username: Seq<char>, password: Seq<char>) -> Result<
    Seq<u8>,
    NaiveFault,
> {
    if username.contains(':') {
        Err(NaiveFault::Invalid("an HTTP basic userid must not contain a colon"@))
    } else {
        authorization_of(base64_of(credential_bytes(username, password)))
    }
}

/// Credentials can always be sent, but for a colon in the user's name.
pub proof fn credentials_fit_a_header(username: Seq<char>, password: Seq<char>)
    ensures
        authorization(username, password) is Ok <==> !username.contains(':'),
{
    reveal_strlit("Basic ");
    let encoded = base64_of(credential_bytes(username, password));
    lemma_base64_symbols(credential_bytes(username, password));
    assert(is_ascii_chars("Basic "@));
    assert(is_ascii_chars(encoded));
    is_ascii_chars_encode_utf8("Basic "@);
    is_ascii_chars_encode_utf8(encoded);
    let value = encode_utf8("Basic "@) + encode_utf8(encoded);
    assert forall|i: int| 0 <= i < value.len() implies header_byte(#[trigger] value[i]) by {
        if i < 6 {
            assert(value[i] == "Basic "@[i] as u8);
        } else {
            assert(value[i] == encode_utf8(encoded)[i - 6]);
            assert(value[i] == encoded[i - 6] as u8);
        }
    }
}

fn has_colon(text: &str) -> (found: bool)
    ensures
        found == text@.contains(':'),
{
    let length = text.unicode_len();
    for i in 0..length
        invariant
            length == text@.len(),
            forall|j: int| 0 <= j < i ==> #[trigger] text@[j] != ':',
    {
        if text.get_char(i) == ':' {
            assert(text@[i as int] == ':');
            return true;
        }
    }
    false
}

fn authorize(username: &str, password: &str) -> (result: Result<Vec<u8>, NaiveError>)
    ensures
        match authorization(username@, password@) {
            Ok(value) => result matches Ok(actual) && actual@ == value,
            Err(fault) => result matches Err(error) && error@ == fault,
        },
{
    if has_colon(username) {
        return Err(NaiveError::Invalid("an HTTP basic userid must not contain a colon"));
    }
    let mut plain = to_vec(username.as_bytes());
    plain.push(58);
    push_bytes(&mut plain, password.as_bytes());
    assert(plain@ =~= credential_bytes(username@, password@));
    let encoded = base64(plain.as_slice());
    wipe(&mut plain);
    basic_authorization(encoded.as_str())
}

/// A CONNECT request: its method, the authority it names and its headers, in
/// order.
#[derive(Debug)]
pub struct ConnectRequest {
    pub method: &'static str,
    pub authority: String,
    pub headers: Vec<Header>,
}

/// A header: its name and its value.
#[derive(Debug)]
pub struct Header {
    pub name: &'static str,
    pub value: Vec<u8>,
}

impl View for Header {
    type V = (Seq<char>, Seq<u8>);

    open spec fn view(&self) -> (Seq<char>, Seq<u8>) {
        (self.name@, self.value@)
    }
}

/// The view of a request.
pub struct RequestShape {
    pub method: Seq<char>,
    pub authority: Seq<char>,
    pub headers: Seq<(Seq<char>, Seq<u8>)>,
}

impl View for ConnectRequest {
    type V = RequestShape;

    open spec fn view(&self) -> RequestShape {
        RequestShape {
            method: self.method@,
            authority: self.authority@,
            headers: Seq::new(self.headers@.len(), |i: int| self.headers@[i]@),
        }
    }
}

/// The headers of every request: the padding types that the client supports, and
/// padding.
pub open spec fn padding_headers(padding: Seq<u8>) -> Seq<(Seq<char>, Seq<u8>)> {
    seq![
        (PADDING_TYPE_REQUEST_HEADER@, encode_utf8(PADDING_TYPE_REQUEST@)),
        (PADDING_HEADER@, padding),
    ]
}

/// The request for an authority, given its parts, the authorization and the seed
/// and length of the padding.
pub open spec fn request_of(
    authority: Seq<char>,
    parts: Option<(bool, bool, Option<Seq<char>>)>,
    authorization: Option<Result<Seq<u8>, NaiveFault>>,
    length: nat,
    unique_bits: u64,
) -> Result<RequestShape, NaiveFault> {
    let padding = padding_headers(header_value(unique_bits, length));
    match target_fault(parts) {
        Some(fault) => Err(fault),
        None => match authorization {
            Some(Err(fault)) => Err(fault),
            Some(Ok(value)) => Ok(
                RequestShape {
                    method: CONNECT_METHOD@,
                    authority,
                    headers: padding.push((AUTHORIZATION_HEADER@, value)),
                },
            ),
            None => Ok(RequestShape { method: CONNECT_METHOD@, authority, headers: padding }),
        },
    }
}

/// The authorization for credentials, where there are any.
pub open spec fn optional_authorization(credentials: Option<(&str, &str)>) -> Option<
    Result<Seq<u8>, NaiveFault>,
> {
    match credentials {
        Some((username, password)) => Some(authorization(username@, password@)),
        None => None,
    }
}

/// The value of a padding header.
pub fn padding_header_value(length: usize, unique_bits: u64) -> (value: Vec<u8>)
    ensures
        value@ == header_value(unique_bits, length as nat),
        legal_value(value@),
{
    let mut value: Vec<u8> = Vec::new();
    value.resize(length, 0);
    fill_nonindex_header_value(unique_bits, value.as_mut_slice());
    proof {
        a_padding_header_uses_only_those_symbols(unique_bits, length as nat);
        assert forall|i: int| 0 <= i < value@.len() implies header_byte(#[trigger] value@[i]) by {
            let at = choose|j: int|
                0 <= j < NONINDEX_CODES@.len() && NONINDEX_CODES@[j] == value@[i];
            assert(NONINDEX_CODES@.contains(value@[i]));
            assert(NONINDEX_CODES@[at] >= 32 && NONINDEX_CODES@[at] != 127);
        }
    }
    value
}

/// The request for an authority, with the seed and the length of the padding
/// given.
pub fn build_request_with(
    authority: &str,
    credentials: Option<(&str, &str)>,
    length: usize,
    unique_bits: u64,
) -> (result: Result<ConnectRequest, NaiveError>)
    ensures
        match request_of(
            authority@,
            uri_parts(authority@),
            optional_authorization(credentials),
            length as nat,
            unique_bits,
        ) {
            Ok(request) => result matches Ok(actual) && actual@ == request,
            Err(fault) => result matches Err(error) && error@ == fault,
        },
{
    let parts = parse_target(authority);
    if let Err(error) = check_target(parts.as_ref()) {
        return Err(error);
    }
    let padding = padding_header_value(length, unique_bits);
    let authorization = match credentials {
        None => None,
        Some((username, password)) => match authorize(username, password) {
            Ok(value) => Some(value),
            Err(error) => {
                return Err(error);
            },
        },
    };
    let mut headers: Vec<Header> = Vec::new();
    headers.push(
        Header {
            name: PADDING_TYPE_REQUEST_HEADER,
            value: to_vec(PADDING_TYPE_REQUEST.as_bytes()),
        },
    );
    headers.push(Header { name: PADDING_HEADER, value: padding });
    if let Some(value) = authorization {
        headers.push(Header { name: AUTHORIZATION_HEADER, value });
    }
    let request = ConnectRequest { method: CONNECT_METHOD, authority: text_of(authority), headers };
    proof {
        let common = padding_headers(header_value(unique_bits, length as nat));
        assert(request@.headers.take(2) =~= common);
        match optional_authorization(credentials) {
            Some(Ok(value)) => {
                assert(request@.headers =~= common.push((AUTHORIZATION_HEADER@, value)));
            },
            _ => {
                assert(request@.headers =~= common);
            },
        }
    }
    Ok(request)
}

/// The request for an authority, with padding as it is drawn.
pub fn build_request(authority: &str, credentials: Option<(&str, &str)>) -> (result: Result<
    ConnectRequest,
    NaiveError,
>)
    ensures
        exists|length: nat, unique_bits: u64|
            MIN_PADDING_HEADER <= length <= MAX_PADDING_HEADER && match #[trigger] request_of(
                authority@,
                uri_parts(authority@),
                optional_authorization(credentials),
                length,
                unique_bits,
            ) {
                Ok(request) => result matches Ok(actual) && actual@ == request,
                Err(fault) => result matches Err(error) && error@ == fault,
            },
{
    let length: usize = MIN_PADDING_HEADER + random_below(17) as usize;
    let unique_bits = random_u64();
    build_request_with(authority, credentials, length, unique_bits)
}

/// Whether a byte is visible ASCII, a space or a tab.
pub open spec fn visible(byte: u8) -> bool {
    32 <= byte < 127 || byte == 9
}

/// Whether a byte is a space or a tab.
pub open spec fn blank(byte: u8) -> bool {
    byte == 32 || byte == 9
}

/// The bytes without blanks in front.
pub open spec fn trimmed_front(bytes: Seq<u8>) -> Seq<u8>
    decreases bytes.len(),
{
    if bytes.len() > 0 && blank(bytes[0]) {
        trimmed_front(bytes.subrange(1, bytes.len() as int))
    } else {
        bytes
    }
}

/// The bytes without blanks behind.
pub open spec fn trimmed_back(bytes: Seq<u8>) -> Seq<u8>
    decreases bytes.len(),
{
    if bytes.len() > 0 && blank(bytes.last()) {
        trimmed_back(bytes.drop_last())
    } else {
        bytes
    }
}

/// What bytes that are not UTF-8 throughout are shown as.
pub uninterp spec fn lossy_text(bytes: Seq<u8>) -> Seq<char>;

/// `String::from_utf8_lossy`: the text of the bytes, with a mark in the place of
/// what is not UTF-8.
#[verifier::external_body]
fn show_lossy(bytes: &[u8]) -> (text: String)
    ensures
        text@ == lossy_text(bytes@),
{
    String::from_utf8_lossy(bytes).into_owned()
}

/// Which padding the server has chosen, given the value of its reply header and
/// whether it sent a padding header. The reply decides; a server that is older
/// than it only sends the padding header.
pub open spec fn chosen_padding(reply: Option<Seq<u8>>, padding: bool) -> Result<
    PaddingType,
    NaiveFault,
> {
    match reply {
        Some(value) => {
            let text = trimmed_back(trimmed_front(value));
            if !(forall|i: int| 0 <= i < value.len() ==> visible(#[trigger] value[i])) {
                Err(NaiveFault::UnknownPaddingType(lossy_text(value)))
            } else if text =~= seq![48u8] {
                Ok(PaddingType::Unpadded)
            } else if text =~= seq![49u8] {
                Ok(PaddingType::Variant1)
            } else {
                Err(NaiveFault::UnknownPaddingType(decode_utf8(text)))
            }
        },
        None => if padding {
            Ok(PaddingType::Variant1)
        } else {
            Ok(PaddingType::Unpadded)
        },
    }
}

fn is_visible(value: &[u8]) -> (visible_throughout: bool)
    ensures
        visible_throughout == (forall|i: int|
            0 <= i < value@.len() ==> visible(#[trigger] value@[i])),
{
    for i in 0..value.len()
        invariant
            forall|j: int| 0 <= j < i ==> visible(#[trigger] value@[j]),
    {
        let byte = value[i];
        if !((32 <= byte && byte < 127) || byte == 9) {
            assert(!visible(value@[i as int]));
            return false;
        }
    }
    true
}

fn trim(value: &[u8]) -> (bounds: (usize, usize))
    ensures
        bounds.0 <= bounds.1 <= value@.len(),
        value@.subrange(bounds.0 as int, bounds.1 as int) == trimmed_back(trimmed_front(value@)),
{
    let mut from: usize = 0;
    assert(value@.subrange(0, value@.len() as int) =~= value@);
    while from < value.len() && (value[from] == 32 || value[from] == 9)
        invariant
            from <= value@.len(),
            trimmed_front(value@) == trimmed_front(
                value@.subrange(from as int, value@.len() as int),
            ),
        decreases value.len() - from,
    {
        let ghost rest = value@.subrange(from as int, value@.len() as int);
        assert(rest.subrange(1, rest.len() as int) =~= value@.subrange(
            from + 1,
            value@.len() as int,
        ));
        from = from + 1;
    }
    let mut to: usize = value.len();
    while to > from && (value[to - 1] == 32 || value[to - 1] == 9)
        invariant
            from <= to <= value@.len(),
            trimmed_back(trimmed_front(value@)) == trimmed_back(
                value@.subrange(from as int, to as int),
            ),
        decreases to - from,
    {
        assert(value@.subrange(from as int, to as int).drop_last() =~= value@.subrange(
            from as int,
            to - 1,
        ));
        to = to - 1;
    }
    (from, to)
}

proof fn lemma_visible_is_text(bytes: Seq<u8>)
    requires
        forall|i: int| 0 <= i < bytes.len() ==> visible(#[trigger] bytes[i]),
    ensures
        valid_utf8(bytes),
{
    assert forall|i: int| 0 <= i < bytes.len() implies #[trigger] is_leading_byte_width_1(
        bytes[i],
    ) by {
        assert(visible(bytes[i]));
        let byte = bytes[i];
        assert(byte < 128 ==> byte & 0x80 == 0) by (bit_vector);
    }
    assert(bytes.subrange(0, 0) =~= Seq::<u8>::empty());
    assert(partial_valid_utf8(bytes, 0));
    partial_valid_utf8_extend_ascii_block(bytes, 0, bytes.len() as int);
    assert(bytes.subrange(0, bytes.len() as int) =~= bytes);
}

/// Which padding the server has chosen, given the value of its reply header and
/// whether it sent a padding header.
pub fn negotiate_padding(reply: Option<&[u8]>, padding: bool) -> (result: Result<
    PaddingType,
    NaiveError,
>)
    ensures
        match chosen_padding(
            match reply {
                Some(value) => Some(value@),
                None => None,
            },
            padding,
        ) {
            Ok(chosen) => result matches Ok(actual) && actual == chosen,
            Err(fault) => result matches Err(error) && error@ == fault,
        },
{
    let value = match reply {
        Some(value) => value,
        None => {
            return if padding {
                Ok(PaddingType::Variant1)
            } else {
                Ok(PaddingType::Unpadded)
            };
        },
    };
    if !is_visible(value) {
        return Err(NaiveError::UnknownPaddingType(show_lossy(value)));
    }
    let (from, to) = trim(value);
    let text = slice_subrange(value, from, to);
    let zero: [u8; 1] = [48u8];
    let one: [u8; 1] = [49u8];
    assert(zero@ =~= seq![48u8] && one@ =~= seq![49u8]);
    if bytes_equal(text, zero.as_slice()) {
        return Ok(PaddingType::Unpadded);
    }
    if bytes_equal(text, one.as_slice()) {
        return Ok(PaddingType::Variant1);
    }
    proof {
        assert forall|i: int| 0 <= i < text@.len() implies visible(#[trigger] text@[i]) by {
            assert(visible(value@[from + i]));
        }
        lemma_visible_is_text(text@);
    }
    match utf8_text(text) {
        Some(kind) => Err(NaiveError::UnknownPaddingType(kind)),
        None => Err(NaiveError::UnknownPaddingType(String::new())),
    }
}

/// What an answer to a CONNECT comes to: only a success opens a tunnel, and where
/// padding is required only a padded one.
pub open spec fn answer_verdict(
    status: u16,
    reply: Option<Seq<u8>>,
    padding: bool,
    required: bool,
) -> Result<PaddingType, NaiveFault> {
    if status < 200 || status >= 300 {
        Err(NaiveFault::Status(status))
    } else {
        match chosen_padding(reply, padding) {
            Err(fault) => Err(fault),
            Ok(chosen) => if required && chosen != PaddingType::Variant1 {
                Err(NaiveFault::PaddingRefused)
            } else {
                Ok(chosen)
            },
        }
    }
}

/// Take the answer to a CONNECT.
pub fn accept_answer(status: u16, reply: Option<&[u8]>, padding: bool, required: bool) -> (result:
    Result<PaddingType, NaiveError>)
    ensures
        match answer_verdict(
            status,
            match reply {
                Some(value) => Some(value@),
                None => None,
            },
            padding,
            required,
        ) {
            Ok(chosen) => result matches Ok(actual) && actual == chosen,
            Err(fault) => result matches Err(error) && error@ == fault,
        },
{
    if status < 200 || status >= 300 {
        return Err(NaiveError::Status(status));
    }
    match negotiate_padding(reply, padding) {
        Err(error) => Err(error),
        Ok(chosen) => {
            if required && chosen != PaddingType::Variant1 {
                return Err(NaiveError::PaddingRefused);
            }
            Ok(chosen)
        },
    }
}

/// A profile that requires padding never gets a tunnel without it.
pub proof fn required_padding_is_never_dropped(status: u16, reply: Option<Seq<u8>>, padding: bool)
    ensures
        answer_verdict(status, reply, padding, true) matches Ok(chosen) ==> chosen
            == PaddingType::Variant1,
{
}

} // verus!
