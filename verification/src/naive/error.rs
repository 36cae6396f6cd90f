//! Typed NaiveProxy failures.
use crate::error::{ErrorKind, Fault, WireError};
use crate::text::{decimal, join, push_decimal, text_of};
use vstd::prelude::*;
use vstd::string::*;

verus! {

/// A text as a diagnostic quotes it.
pub uninterp spec fn quoted_form(text: Seq<char>) -> Seq<char>;

/// `format!` with `{:?}` on a text: the text in quotation marks, with what cannot
/// be shown escaped.
#[verifier::external_body]
fn quoted_text(text: &str) -> (form: String)
    ensures
        form@ == quoted_form(text@),
{
    format!("{text:?}")
}

/// A failure of a NaiveProxy exchange.
#[derive(Debug)]
pub enum NaiveError {
    TlsRequired,
    AlpnMismatch,
    Status(u16),
    /// The server answered like an ordinary proxy. Going on would give a tunnel
    /// without the padding that was asked for.
    PaddingRefused,
    UnknownPaddingType(String),
    Invalid(&'static str),
    Http2(String),
    Io(WireError),
}

/// The view of a failure.
pub enum NaiveFault {
    TlsRequired,
    AlpnMismatch,
    Status(u16),
    PaddingRefused,
    UnknownPaddingType(Seq<char>),
    Invalid(Seq<char>),
    Http2(Seq<char>),
    Io(Fault),
}

impl View for NaiveError {
    type V = NaiveFault;

    open spec fn view(&self) -> NaiveFault {
        match self {
            NaiveError::TlsRequired => NaiveFault::TlsRequired,
            NaiveError::AlpnMismatch => NaiveFault::AlpnMismatch,
            NaiveError::Status(status) => NaiveFault::Status(*status),
            NaiveError::PaddingRefused => NaiveFault::PaddingRefused,
            NaiveError::UnknownPaddingType(kind) => NaiveFault::UnknownPaddingType(kind@),
            NaiveError::Invalid(what) => NaiveFault::Invalid(what@),
            NaiveError::Http2(what) => NaiveFault::Http2(what@),
            NaiveError::Io(error) => NaiveFault::Io(error@),
        }
    }
}

impl NaiveFault {
    /// The class of the failure.
    pub open spec fn class(self) -> ErrorKind {
        match self {
            NaiveFault::TlsRequired => ErrorKind::InvalidInput,
            NaiveFault::AlpnMismatch => ErrorKind::InvalidInput,
            NaiveFault::Invalid(_) => ErrorKind::InvalidInput,
            NaiveFault::Status(status) => if status == 407 {
                ErrorKind::PermissionDenied
            } else {
                ErrorKind::ConnectionRefused
            },
            NaiveFault::PaddingRefused => ErrorKind::ConnectionRefused,
            NaiveFault::UnknownPaddingType(_) => ErrorKind::InvalidData,
            NaiveFault::Http2(_) => ErrorKind::InvalidData,
            NaiveFault::Io(fault) => fault.0,
        }
    }

    /// The failure in words.
    pub open spec fn sentence(self) -> Seq<char> {
        match self {
            NaiveFault::TlsRequired => "NaiveProxy requires TLS with ALPN h2"@,
            NaiveFault::AlpnMismatch =>
                "NaiveProxy runs over HTTP/2, so ALPN must be exactly [\"h2\"]"@,
            NaiveFault::Status(status) => "NaiveProxy server refused CONNECT with status "@
                + decimal(status as nat),
            NaiveFault::PaddingRefused =>
                "NaiveProxy padding was required but the server did not negotiate it (it is a plain HTTP/2 proxy)"@,
            NaiveFault::UnknownPaddingType(kind) =>
                "NaiveProxy server replied with unknown padding type "@ + quoted_form(kind),
            NaiveFault::Invalid(what) => "invalid NaiveProxy request: "@ + what,
            NaiveFault::Http2(what) => "HTTP/2: "@ + what,
            NaiveFault::Io(fault) => fault.1,
        }
    }
}

impl NaiveError {
    /// The class of the failure.
    pub fn io_kind(&self) -> (kind: ErrorKind)
        ensures
            kind == self@.class(),
    {
        match self {
            Self::TlsRequired | Self::AlpnMismatch | Self::Invalid(_) => ErrorKind::InvalidInput,
            Self::Status(status) => if *status == 407 {
                ErrorKind::PermissionDenied
            } else {
                ErrorKind::ConnectionRefused
            },
            Self::PaddingRefused => ErrorKind::ConnectionRefused,
            Self::UnknownPaddingType(_) | Self::Http2(_) => ErrorKind::InvalidData,
            Self::Io(error) => error.kind(),
        }
    }

    /// The status with which the server refused, where it did.
    pub fn status(&self) -> (status: Option<u16>)
        ensures
            status == match self@ {
                NaiveFault::Status(code) => Some(code),
                _ => None,
            },
    {
        match self {
            Self::Status(status) => Some(*status),
            _ => None,
        }
    }

    /// Whether the failure was about the connection rather than the request. A
    /// connection may go away between the moment a stream is reserved on it and
    /// the request; a refusal is the server's answer, and asking again would not
    /// change it.
    pub fn is_connection_lost(&self) -> (lost: bool)
        ensures
            lost == (self@ is Http2),
    {
        match self {
            Self::Http2(_) => true,
            _ => false,
        }
    }

    /// The failure in words.
    pub fn message(&self) -> (message: String)
        ensures
            message@ == self@.sentence(),
    {
        match self {
            Self::TlsRequired => text_of("NaiveProxy requires TLS with ALPN h2"),
            Self::AlpnMismatch => text_of(
                "NaiveProxy runs over HTTP/2, so ALPN must be exactly [\"h2\"]",
            ),
            Self::Status(status) => {
                let mut text = text_of("NaiveProxy server refused CONNECT with status ");
                push_decimal(&mut text, *status as u64);
                text
            },
            Self::PaddingRefused => text_of(
                "NaiveProxy padding was required but the server did not negotiate it (it is a plain HTTP/2 proxy)",
            ),
            Self::UnknownPaddingType(kind) => {
                let quoted = quoted_text(kind.as_str());
                join("NaiveProxy server replied with unknown padding type ", quoted.as_str())
            },
            Self::Invalid(what) => join("invalid NaiveProxy request: ", what),
            Self::Http2(what) => join("HTTP/2: ", what.as_str()),
            Self::Io(error) => text_of(error.message()),
        }
    }
}

} // verus!
