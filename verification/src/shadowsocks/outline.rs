//! The opening salt with a fixed prefix. A Shadowsocks stream opens with a salt
//! from which both sides derive the session key; the prefix takes the place of its
//! first bytes, and at least half of it stays random.
use crate::error::{invalid_input, ErrorKind, Fault, WireError};
use crate::octets::{push_bytes, to_vec};
use crate::random::random_bytes;
use crate::text::{decimal, push_decimal, text_of};
use vstd::prelude::*;
use vstd::string::*;

verus! {

/// The kinds of ciphers.
#[derive(Clone, Copy, Debug, PartialEq, Eq, Structural)]
pub enum CipherCategory {
    /// No encryption.
    Plain,
    Aead,
    Aead2022,
}

/// The category of the method with a name, where there is such a method.
pub uninterp spec fn category_of(name: Seq<char>) -> Option<CipherCategory>;

/// How the method with a name is spelled.
pub uninterp spec fn spelling_of(name: Seq<char>) -> Seq<char>;

/// The length of the salt of the method with a name.
pub uninterp spec fn salt_len_of(name: Seq<char>) -> usize;

/// `shadowsocks::crypto::CipherKind::category` of the method that
/// `CipherKind::from_str` finds under the name: its category, or nothing where
/// there is no such method.
#[verifier::external_body]
fn cipher_category(name: &str) -> (category: Option<CipherCategory>)
    ensures
        category == category_of(name@),
{
    let kind: shadowsocks::crypto::CipherKind = name.parse().ok()?;
    match kind.category() {
        shadowsocks::crypto::CipherCategory::None => Some(CipherCategory::Plain),
        shadowsocks::crypto::CipherCategory::Aead => Some(CipherCategory::Aead),
        shadowsocks::crypto::CipherCategory::Aead2022 => Some(CipherCategory::Aead2022),
    }
}

/// `shadowsocks::crypto::CipherKind` as text: the one spelling of a method that
/// may have several names.
#[verifier::external_body]
fn cipher_spelling(name: &str) -> (spelling: String)
    requires
        category_of(name@) is Some,
    ensures
        spelling@ == spelling_of(name@),
{
    let kind: shadowsocks::crypto::CipherKind = name.parse().expect("a known method");
    kind.to_string()
}

/// `shadowsocks::crypto::CipherKind::salt_len`: the length of the salt, which only
/// the methods with encryption have.
#[verifier::external_body]
fn cipher_salt_len(name: &str) -> (length: usize)
    requires
        category_of(name@) matches Some(category) && category != CipherCategory::Plain,
    ensures
        length == salt_len_of(name@),
{
    let kind: shadowsocks::crypto::CipherKind = name.parse().expect("a known method");
    kind.salt_len()
}

/// A method: how it is spelled, its category, and the length of its salt, which is
/// none without encryption.
#[derive(Clone, Debug)]
pub struct CipherMethod {
    pub name: String,
    pub category: CipherCategory,
    pub salt_len: usize,
}

/// The view of a method.
pub struct MethodShape {
    pub name: Seq<char>,
    pub category: CipherCategory,
    pub salt_len: usize,
}

impl View for CipherMethod {
    type V = MethodShape;

    open spec fn view(&self) -> MethodShape {
        MethodShape { name: self.name@, category: self.category, salt_len: self.salt_len }
    }
}

/// The method with a name.
pub open spec fn method_of(name: Seq<char>) -> Result<MethodShape, Fault> {
    match category_of(name) {
        None => Err(invalid_input("unsupported Shadowsocks method: invalid CipherKind"@)),
        Some(category) => Ok(
            MethodShape {
                name: spelling_of(name),
                category,
                salt_len: if category == CipherCategory::Plain {
                    0
                } else {
                    salt_len_of(name)
                },
            },
        ),
    }
}

impl CipherMethod {
    /// The method with a name.
    pub fn parse(name: &str) -> (result: Result<CipherMethod, WireError>)
        ensures
            match method_of(name@) {
                Ok(method) => result matches Ok(actual) && actual@ == method,
                Err(fault) => result matches Err(error) && error@ == fault,
            },
    {
        let category = match cipher_category(name) {
            Some(category) => category,
            None => {
                return Err(
                    WireError::new(
                        ErrorKind::InvalidInput,
                        "unsupported Shadowsocks method: invalid CipherKind",
                    ),
                );
            },
        };
        let salt_len = match category {
            CipherCategory::Plain => 0,
            _ => cipher_salt_len(name),
        };
        Ok(CipherMethod { name: cipher_spelling(name), category, salt_len })
    }
}

/// Why a prefix is refused: only the plain AEAD methods carry one, and it takes at
/// most half of the salt.
pub open spec fn prefix_fault(method: MethodShape, length: int) -> Option<Fault> {
    if method.category != CipherCategory::Aead {
        Some(
            (
                ErrorKind::Unsupported,
                "the Outline prefix is defined for AEAD Shadowsocks only; 2022 and stream ciphers do not carry it"@,
            ),
        )
    } else if length == 0 || length > method.salt_len as int / 2 {
        Some(
            invalid_input(
                "an Outline prefix for "@ + method.name + " must be 1..="@ + decimal(
                    (method.salt_len / 2) as nat,
                ) + " bytes, so that at least half of the salt stays random"@,
            ),
        )
    } else {
        None
    }
}

/// Check that a method can carry a prefix of this length.
pub fn check_prefix(method: &CipherMethod, length: usize) -> (result: Result<(), WireError>)
    ensures
        match prefix_fault(method@, length as int) {
            None => result is Ok,
            Some(fault) => result matches Err(error) && error@ == fault,
        },
{
    match method.category {
        CipherCategory::Aead => {},
        _ => {
            return Err(
                WireError::new(
                    ErrorKind::Unsupported,
                    "the Outline prefix is defined for AEAD Shadowsocks only; 2022 and stream ciphers do not carry it",
                ),
            );
        },
    }
    let limit: usize = method.salt_len / 2;
    if length == 0 || length > limit {
        let mut message = text_of("an Outline prefix for ");
        message.append(method.name.as_str());
        message.append(" must be 1..=");
        push_decimal(&mut message, limit as u64);
        message.append(" bytes, so that at least half of the salt stays random");
        return Err(WireError { kind: ErrorKind::InvalidInput, message });
    }
    Ok(())
}

fn random_tail(length: usize) -> (tail: Vec<u8>)
    ensures
        tail@.len() == length,
{
    let mut tail: Vec<u8> = Vec::new();
    while tail.len() < length
        invariant
            tail@.len() <= length,
        decreases length - tail.len(),
    {
        let byte: [u8; 1] = random_bytes::<1>();
        tail.push(byte[0]);
    }
    tail
}

/// The salt to open with: the prefix, and random bytes behind it.
pub fn prefixed_salt(method: &CipherMethod, prefix: &[u8]) -> (result: Result<Vec<u8>, WireError>)
    ensures
        match prefix_fault(method@, prefix@.len() as int) {
            None => result matches Ok(salt) && salt@.len() == method.salt_len && prefix@.len() * 2
                <= salt@.len() && salt@.subrange(0, prefix@.len() as int) == prefix@,
            Some(fault) => result matches Err(error) && error@ == fault,
        },
{
    if let Err(error) = check_prefix(method, prefix.len()) {
        return Err(error);
    }
    let tail = random_tail(method.salt_len - prefix.len());
    let mut salt = to_vec(prefix);
    push_bytes(&mut salt, tail.as_slice());
    assert(salt@.subrange(0, prefix@.len() as int) =~= prefix@);
    Ok(salt)
}

/// What a stream with a chosen salt has sent of its opening.
enum Opening {
    /// Nothing: the header of the target is to be sent with the first write.
    Connect(Vec<u8>),
    /// The first chunk, which is under way.
    Connecting(Vec<u8>),
    Connected,
}

/// The view of an opening.
pub enum OpeningShape {
    Connect(Seq<u8>),
    Connecting(Seq<u8>),
    Connected,
}

/// The writing side of a stream that opens with a chosen salt. The target's header
/// travels with the first payload, so that the first packet has no distinctive
/// size.
pub struct PrefixedProxyStream {
    opening: Opening,
}

impl View for PrefixedProxyStream {
    type V = OpeningShape;

    closed spec fn view(&self) -> OpeningShape {
        match self.opening {
            Opening::Connect(header) => OpeningShape::Connect(header@),
            Opening::Connecting(first) => OpeningShape::Connecting(first@),
            Opening::Connected => OpeningShape::Connected,
        }
    }
}

/// What is encrypted for a write.
pub open spec fn chunk_of(opening: OpeningShape, buffer: Seq<u8>) -> Seq<u8> {
    match opening {
        OpeningShape::Connect(header) => header + buffer,
        OpeningShape::Connecting(first) => first,
        OpeningShape::Connected => buffer,
    }
}

impl PrefixedProxyStream {
    /// A stream to the target with this header.
    pub fn new(header: &[u8]) -> (stream: PrefixedProxyStream)
        ensures
            stream@ == OpeningShape::Connect(header@),
    {
        PrefixedProxyStream { opening: Opening::Connect(to_vec(header)) }
    }

    /// The chunk to encrypt for a write of `buffer`. Until the first chunk has been
    /// accepted it stays the same.
    pub fn chunk(&mut self, buffer: &[u8]) -> (chunk: Vec<u8>)
        ensures
            chunk@ == chunk_of(old(self)@, buffer@),
            final(self)@ == match old(self)@ {
                OpeningShape::Connected => OpeningShape::Connected,
                _ => OpeningShape::Connecting(chunk@),
            },
    {
        let chunk = match &self.opening {
            Opening::Connect(header) => {
                let mut first = to_vec(header.as_slice());
                push_bytes(&mut first, buffer);
                first
            },
            Opening::Connecting(first) => to_vec(first.as_slice()),
            Opening::Connected => {
                return to_vec(buffer);
            },
        };
        self.opening = Opening::Connecting(to_vec(chunk.as_slice()));
        chunk
    }

    /// The chunk has been accepted, `written` bytes of it; how many bytes of
    /// `buffer` that is. All of them went into the first chunk, even where there
    /// were none.
    pub fn accepted(&mut self, buffer: &[u8], written: usize) -> (count: usize)
        ensures
            count == if old(self)@ is Connected {
                written
            } else {
                buffer.len()
            },
            final(self)@ == OpeningShape::Connected,
    {
        let count = match &self.opening {
            Opening::Connected => written,
            _ => buffer.len(),
        };
        self.opening = Opening::Connected;
        count
    }
}

/// Why a profile carries no datagrams: they are switched off, or a carrier stands
/// between the codec and the socket.
pub open spec fn datagram_fault(udp: bool, raw: bool, obfuscated: bool) -> Option<Fault> {
    if !udp {
        Some((ErrorKind::Unsupported, "UDP is disabled for this Shadowsocks profile"@))
    } else if !raw || obfuscated {
        Some((ErrorKind::Unsupported, "Shadowsocks over a stream transport carries TCP only"@))
    } else {
        None
    }
}

/// Check that a profile carries datagrams.
pub fn check_datagrams(udp: bool, raw: bool, obfuscated: bool) -> (result: Result<(), WireError>)
    ensures
        match datagram_fault(udp, raw, obfuscated) {
            None => result is Ok,
            Some(fault) => result matches Err(error) && error@ == fault,
        },
{
    if !udp {
        return Err(
            WireError::new(
                ErrorKind::Unsupported,
                "UDP is disabled for this Shadowsocks profile",
            ),
        );
    }
    if !raw || obfuscated {
        return Err(
            WireError::new(
                ErrorKind::Unsupported,
                "Shadowsocks over a stream transport carries TCP only",
            ),
        );
    }
    Ok(())
}

} // verus!
