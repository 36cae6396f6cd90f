//! The error value shared by the protocol modules.
//!
//! A `WireError` pairs the class of a failure with the sentence that explains
//! it. Contracts speak of its view, the pair of kind and message text.
use crate::text::text_of;
use vstd::prelude::*;

verus! {

/// The class of a failure, in the vocabulary of I/O errors.
#[derive(Clone, Copy, Debug, PartialEq, Eq, Structural)]
pub enum ErrorKind {
    NotFound,
    PermissionDenied,
    ConnectionRefused,
    ConnectionReset,
    ConnectionAborted,
    NotConnected,
    BrokenPipe,
    WouldBlock,
    InvalidInput,
    InvalidData,
    TimedOut,
    WriteZero,
    UnexpectedEof,
    Unsupported,
    Other,
}

/// What a contract says of an error: its kind and the text of its message.
pub type Fault = (ErrorKind, Seq<char>);

/// A failure of a protocol operation.
#[derive(Debug, Clone)]
pub struct WireError {
    pub kind: ErrorKind,
    pub message: String,
}

impl View for WireError {
    type V = Fault;

    open spec fn view(&self) -> Fault {
        (self.kind, self.message@)
    }
}

impl WireError {
    /// An error with a fixed sentence.
    pub fn new(kind: ErrorKind, message: &str) -> (error: WireError)
        ensures
            error@ == (kind, message@),
    {
        WireError { kind, message: text_of(message) }
    }

    /// The class of the failure.
    pub fn kind(&self) -> (kind: ErrorKind)
        ensures
            kind == self@.0,
    {
        self.kind
    }

    /// The sentence that explains the failure.
    pub fn message(&self) -> (message: &str)
        ensures
            message@ == self@.1,
    {
        self.message.as_str()
    }
}

/// An `InvalidData` fault.
pub open spec fn invalid_data(message: Seq<char>) -> Fault {
    (ErrorKind::InvalidData, message)
}

/// An `InvalidInput` fault.
pub open spec fn invalid_input(message: Seq<char>) -> Fault {
    (ErrorKind::InvalidInput, message)
}

} // verus!
