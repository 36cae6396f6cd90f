//! Typed SOCKS5 failures. A refusal keeps the code of the reply, so that a proxy
//! that cannot be reached and one that refuses a destination stay apart.
use crate::error::{ErrorKind, Fault, WireError};
use crate::text::{decimal, hex_byte, join, push_decimal, push_hex_byte, text_of};
use vstd::prelude::*;
use vstd::string::*;

verus! {

/// The reply field of a SOCKS5 answer.
#[derive(Debug, Clone, Copy, PartialEq, Eq, Structural)]
pub enum SocksReply {
    Succeeded,
    GeneralFailure,
    ConnectionNotAllowed,
    NetworkUnreachable,
    HostUnreachable,
    ConnectionRefused,
    TtlExpired,
    CommandNotSupported,
    AddressTypeNotSupported,
    /// A code without an assigned meaning, kept as it came.
    Unassigned(u8),
}

/// The reply that a code stands for.
pub open spec fn reply_of(code: u8) -> SocksReply {
    if code == 0 {
        SocksReply::Succeeded
    } else if code == 1 {
        SocksReply::GeneralFailure
    } else if code == 2 {
        SocksReply::ConnectionNotAllowed
    } else if code == 3 {
        SocksReply::NetworkUnreachable
    } else if code == 4 {
        SocksReply::HostUnreachable
    } else if code == 5 {
        SocksReply::ConnectionRefused
    } else if code == 6 {
        SocksReply::TtlExpired
    } else if code == 7 {
        SocksReply::CommandNotSupported
    } else if code == 8 {
        SocksReply::AddressTypeNotSupported
    } else {
        SocksReply::Unassigned(code)
    }
}

impl SocksReply {
    /// The code of the reply.
    pub open spec fn wire_code(self) -> u8 {
        match self {
            SocksReply::Succeeded => 0,
            SocksReply::GeneralFailure => 1,
            SocksReply::ConnectionNotAllowed => 2,
            SocksReply::NetworkUnreachable => 3,
            SocksReply::HostUnreachable => 4,
            SocksReply::ConnectionRefused => 5,
            SocksReply::TtlExpired => 6,
            SocksReply::CommandNotSupported => 7,
            SocksReply::AddressTypeNotSupported => 8,
            SocksReply::Unassigned(code) => code,
        }
    }

    /// What the reply means.
    pub open spec fn meaning(self) -> Seq<char> {
        match self {
            SocksReply::Succeeded => "succeeded"@,
            SocksReply::GeneralFailure => "general SOCKS server failure"@,
            SocksReply::ConnectionNotAllowed => "connection not allowed by ruleset"@,
            SocksReply::NetworkUnreachable => "network unreachable"@,
            SocksReply::HostUnreachable => "host unreachable"@,
            SocksReply::ConnectionRefused => "connection refused"@,
            SocksReply::TtlExpired => "TTL expired"@,
            SocksReply::CommandNotSupported => "command not supported"@,
            SocksReply::AddressTypeNotSupported => "address type not supported"@,
            SocksReply::Unassigned(_) => "unassigned reply code"@,
        }
    }

    /// The class of failure that the reply is.
    pub open spec fn class(self) -> ErrorKind {
        match self {
            SocksReply::Succeeded => ErrorKind::Other,
            SocksReply::ConnectionNotAllowed => ErrorKind::PermissionDenied,
            SocksReply::NetworkUnreachable => ErrorKind::NotFound,
            SocksReply::HostUnreachable => ErrorKind::NotFound,
            SocksReply::ConnectionRefused => ErrorKind::ConnectionRefused,
            SocksReply::TtlExpired => ErrorKind::TimedOut,
            SocksReply::CommandNotSupported => ErrorKind::Unsupported,
            SocksReply::AddressTypeNotSupported => ErrorKind::Unsupported,
            SocksReply::GeneralFailure => ErrorKind::ConnectionAborted,
            SocksReply::Unassigned(_) => ErrorKind::ConnectionAborted,
        }
    }

    /// The meaning with the code behind it.
    pub open spec fn sentence(self) -> Seq<char> {
        self.meaning() + " (REP 0x"@ + hex_byte(self.wire_code()) + seq![')']
    }

    /// The reply that a code stands for.
    pub fn from_code(code: u8) -> (reply: Self)
        ensures
            reply == reply_of(code),
    {
        match code {
            0x00 => Self::Succeeded,
            0x01 => Self::GeneralFailure,
            0x02 => Self::ConnectionNotAllowed,
            0x03 => Self::NetworkUnreachable,
            0x04 => Self::HostUnreachable,
            0x05 => Self::ConnectionRefused,
            0x06 => Self::TtlExpired,
            0x07 => Self::CommandNotSupported,
            0x08 => Self::AddressTypeNotSupported,
            other => Self::Unassigned(other),
        }
    }

    /// The code of the reply.
    pub fn code(self) -> (code: u8)
        ensures
            code == self.wire_code(),
    {
        match self {
            Self::Succeeded => 0x00,
            Self::GeneralFailure => 0x01,
            Self::ConnectionNotAllowed => 0x02,
            Self::NetworkUnreachable => 0x03,
            Self::HostUnreachable => 0x04,
            Self::ConnectionRefused => 0x05,
            Self::TtlExpired => 0x06,
            Self::CommandNotSupported => 0x07,
            Self::AddressTypeNotSupported => 0x08,
            Self::Unassigned(code) => code,
        }
    }

    fn reason(self) -> (reason: &'static str)
        ensures
            reason@ == self.meaning(),
    {
        match self {
            Self::Succeeded => "succeeded",
            Self::GeneralFailure => "general SOCKS server failure",
            Self::ConnectionNotAllowed => "connection not allowed by ruleset",
            Self::NetworkUnreachable => "network unreachable",
            Self::HostUnreachable => "host unreachable",
            Self::ConnectionRefused => "connection refused",
            Self::TtlExpired => "TTL expired",
            Self::CommandNotSupported => "command not supported",
            Self::AddressTypeNotSupported => "address type not supported",
            Self::Unassigned(_) => "unassigned reply code",
        }
    }

    fn io_kind(self) -> (kind: ErrorKind)
        ensures
            kind == self.class(),
    {
        match self {
            Self::Succeeded => ErrorKind::Other,
            Self::ConnectionNotAllowed => ErrorKind::PermissionDenied,
            Self::NetworkUnreachable | Self::HostUnreachable => ErrorKind::NotFound,
            Self::ConnectionRefused => ErrorKind::ConnectionRefused,
            Self::TtlExpired => ErrorKind::TimedOut,
            Self::CommandNotSupported | Self::AddressTypeNotSupported => ErrorKind::Unsupported,
            Self::GeneralFailure | Self::Unassigned(_) => ErrorKind::ConnectionAborted,
        }
    }

    /// The reply in words, with its code.
    pub fn message(self) -> (message: String)
        ensures
            message@ == self.sentence(),
    {
        let mut message = join(self.reason(), " (REP 0x");
        push_hex_byte(&mut message, self.code());
        message.push(')');
        assert(message@ =~= self.sentence());
        message
    }
}

/// A failure of a SOCKS5 exchange.
#[derive(Debug)]
pub enum SocksError {
    Refused(SocksReply),
    UnexpectedVersion(u8),
    UnexpectedAuthMethod(u8),
    NoAcceptableAuthMethod,
    UnexpectedAuthVersion(u8),
    AuthenticationFailed(u8),
    UnsupportedAddressType(u8),
    Malformed(&'static str),
    Io(WireError),
}

/// The view of a failure.
pub enum SocksFault {
    Refused(SocksReply),
    UnexpectedVersion(u8),
    UnexpectedAuthMethod(u8),
    NoAcceptableAuthMethod,
    UnexpectedAuthVersion(u8),
    AuthenticationFailed(u8),
    UnsupportedAddressType(u8),
    Malformed(Seq<char>),
    Io(Fault),
}

impl View for SocksError {
    type V = SocksFault;

    open spec fn view(&self) -> SocksFault {
        match self {
            SocksError::Refused(reply) => SocksFault::Refused(*reply),
            SocksError::UnexpectedVersion(version) => SocksFault::UnexpectedVersion(*version),
            SocksError::UnexpectedAuthMethod(method) => SocksFault::UnexpectedAuthMethod(*method),
            SocksError::NoAcceptableAuthMethod => SocksFault::NoAcceptableAuthMethod,
            SocksError::UnexpectedAuthVersion(version) => SocksFault::UnexpectedAuthVersion(
                *version,
            ),
            SocksError::AuthenticationFailed(status) => SocksFault::AuthenticationFailed(*status),
            SocksError::UnsupportedAddressType(kind) => SocksFault::UnsupportedAddressType(*kind),
            SocksError::Malformed(what) => SocksFault::Malformed(what@),
            SocksError::Io(error) => SocksFault::Io(error@),
        }
    }
}

impl SocksFault {
    /// The class of the failure.
    pub open spec fn class(self) -> ErrorKind {
        match self {
            SocksFault::Refused(reply) => reply.class(),
            SocksFault::UnexpectedAuthMethod(_) => ErrorKind::PermissionDenied,
            SocksFault::NoAcceptableAuthMethod => ErrorKind::PermissionDenied,
            SocksFault::AuthenticationFailed(_) => ErrorKind::PermissionDenied,
            SocksFault::UnsupportedAddressType(_) => ErrorKind::Unsupported,
            SocksFault::UnexpectedVersion(_) => ErrorKind::InvalidData,
            SocksFault::UnexpectedAuthVersion(_) => ErrorKind::InvalidData,
            SocksFault::Malformed(_) => ErrorKind::InvalidData,
            SocksFault::Io(fault) => fault.0,
        }
    }

    /// The failure in words.
    pub open spec fn sentence(self) -> Seq<char> {
        match self {
            SocksFault::Refused(reply) => "SOCKS5 server refused the request: "@
                + reply.sentence(),
            SocksFault::UnexpectedVersion(version) => "SOCKS5 peer used protocol version "@
                + decimal(version as nat) + ", expected 5"@,
            SocksFault::UnexpectedAuthMethod(method) =>
                "SOCKS5 server selected authentication method 0x"@ + hex_byte(method)
                + ", which was never offered"@,
            SocksFault::NoAcceptableAuthMethod =>
                "SOCKS5 server rejected every offered authentication method"@,
            SocksFault::UnexpectedAuthVersion(version) =>
                "SOCKS5 username/password sub-negotiation used version "@ + decimal(
                version as nat,
            ) + ", expected 1"@,
            SocksFault::AuthenticationFailed(status) =>
                "SOCKS5 username/password authentication failed with status 0x"@ + hex_byte(
                status,
            ),
            SocksFault::UnsupportedAddressType(kind) => "SOCKS5 address type 0x"@ + hex_byte(kind)
                + " is not supported"@,
            SocksFault::Malformed(what) => "malformed SOCKS5 message: "@ + what,
            SocksFault::Io(fault) => fault.1,
        }
    }
}

fn with_decimal(before: &str, number: u8, after: &str) -> (text: String)
    ensures
        text@ == before@ + decimal(number as nat) + after@,
{
    let mut text = text_of(before);
    push_decimal(&mut text, number as u64);
    text.append(after);
    text
}

fn with_hex(before: &str, number: u8, after: &str) -> (text: String)
    ensures
        text@ == before@ + hex_byte(number) + after@,
{
    let mut text = text_of(before);
    push_hex_byte(&mut text, number);
    text.append(after);
    text
}

impl SocksError {
    /// The class of the failure.
    pub fn io_kind(&self) -> (kind: ErrorKind)
        ensures
            kind == self@.class(),
    {
        match self {
            Self::Refused(reply) => reply.io_kind(),
            Self::UnexpectedAuthMethod(_)
            | Self::NoAcceptableAuthMethod
            | Self::AuthenticationFailed(_) => ErrorKind::PermissionDenied,
            Self::UnsupportedAddressType(_) => ErrorKind::Unsupported,
            Self::UnexpectedVersion(_) | Self::UnexpectedAuthVersion(_) | Self::Malformed(_) => {
                ErrorKind::InvalidData
            },
            Self::Io(error) => error.kind(),
        }
    }

    /// The failure in words.
    pub fn message(&self) -> (message: String)
        ensures
            message@ == self@.sentence(),
    {
        match self {
            Self::Refused(reply) => {
                let reason = reply.message();
                join("SOCKS5 server refused the request: ", reason.as_str())
            },
            Self::UnexpectedVersion(version) => with_decimal(
                "SOCKS5 peer used protocol version ",
                *version,
                ", expected 5",
            ),
            Self::UnexpectedAuthMethod(method) => with_hex(
                "SOCKS5 server selected authentication method 0x",
                *method,
                ", which was never offered",
            ),
            Self::NoAcceptableAuthMethod => text_of(
                "SOCKS5 server rejected every offered authentication method",
            ),
            Self::UnexpectedAuthVersion(version) => with_decimal(
                "SOCKS5 username/password sub-negotiation used version ",
                *version,
                ", expected 1",
            ),
            Self::AuthenticationFailed(status) => {
                let mut text = text_of(
                    "SOCKS5 username/password authentication failed with status 0x",
                );
                push_hex_byte(&mut text, *status);
                text
            },
            Self::UnsupportedAddressType(kind) => with_hex(
                "SOCKS5 address type 0x",
                *kind,
                " is not supported",
            ),
            Self::Malformed(what) => join("malformed SOCKS5 message: ", what),
            Self::Io(error) => text_of(error.message()),
        }
    }
}

/// Every code stands for a reply that keeps it, and a reply read off its own code
/// is the same reply, unless it calls an assigned code unassigned.
pub proof fn reply_codes_are_kept(code: u8, reply: SocksReply)
    ensures
        reply_of(code).wire_code() == code,
        (reply matches SocksReply::Unassigned(unassigned) ==> unassigned > 8) ==> reply_of(
            reply.wire_code(),
        ) == reply,
{
}

} // verus!
