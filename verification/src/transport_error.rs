//! The failure of a connection attempt, whichever protocol it came from. A typed
//! failure keeps its type, so that a caller can still tell what a server answered.
use crate::error::{ErrorKind, Fault, WireError};
use crate::naive::error::{NaiveError, NaiveFault};
use crate::socks::error::{SocksError, SocksFault};
use vstd::prelude::*;

verus! {

/// A failure of a connection attempt.
#[derive(Debug)]
pub enum TransportError {
    Io(WireError),
    Socks(SocksError),
    Naive(NaiveError),
}

/// The view of such a failure.
pub enum TransportFault {
    Io(Fault),
    Socks(SocksFault),
    Naive(NaiveFault),
}

impl View for TransportError {
    type V = TransportFault;

    open spec fn view(&self) -> TransportFault {
        match self {
            TransportError::Io(error) => TransportFault::Io(error@),
            TransportError::Socks(error) => TransportFault::Socks(error@),
            TransportError::Naive(error) => TransportFault::Naive(error@),
        }
    }
}

impl TransportFault {
    /// The class of the failure.
    pub open spec fn class(self) -> ErrorKind {
        match self {
            TransportFault::Io(fault) => fault.0,
            TransportFault::Socks(fault) => fault.class(),
            TransportFault::Naive(fault) => fault.class(),
        }
    }

    /// The failure in words.
    pub open spec fn sentence(self) -> Seq<char> {
        match self {
            TransportFault::Io(fault) => fault.1,
            TransportFault::Socks(fault) => fault.sentence(),
            TransportFault::Naive(fault) => fault.sentence(),
        }
    }
}

impl TransportError {
    /// The class of the failure.
    pub fn kind(&self) -> (kind: ErrorKind)
        ensures
            kind == self@.class(),
    {
        match self {
            TransportError::Io(error) => error.kind(),
            TransportError::Socks(error) => error.io_kind(),
            TransportError::Naive(error) => error.io_kind(),
        }
    }

    /// The failure in words.
    pub fn message(&self) -> (message: String)
        ensures
            message@ == self@.sentence(),
    {
        match self {
            TransportError::Io(error) => crate::text::text_of(error.message()),
            TransportError::Socks(error) => error.message(),
            TransportError::Naive(error) => error.message(),
        }
    }
}

impl From<SocksError> for TransportError {
    fn from(error: SocksError) -> (converted: TransportError) {
        match error {
            SocksError::Io(error) => TransportError::Io(error),
            other => TransportError::Socks(other),
        }
    }
}

impl vstd::std_specs::convert::FromSpecImpl<SocksError> for TransportError {
    open spec fn obeys_from_spec() -> bool {
        true
    }

    open spec fn from_spec(error: SocksError) -> TransportError {
        match error {
            SocksError::Io(error) => TransportError::Io(error),
            other => TransportError::Socks(other),
        }
    }
}

impl From<NaiveError> for TransportError {
    fn from(error: NaiveError) -> (converted: TransportError) {
        match error {
            NaiveError::Io(error) => TransportError::Io(error),
            other => TransportError::Naive(other),
        }
    }
}

impl vstd::std_specs::convert::FromSpecImpl<NaiveError> for TransportError {
    open spec fn obeys_from_spec() -> bool {
        true
    }

    open spec fn from_spec(error: NaiveError) -> TransportError {
        match error {
            NaiveError::Io(error) => TransportError::Io(error),
            other => TransportError::Naive(other),
        }
    }
}

impl From<WireError> for TransportError {
    fn from(error: WireError) -> (converted: TransportError) {
        TransportError::Io(error)
    }
}

impl vstd::std_specs::convert::FromSpecImpl<WireError> for TransportError {
    open spec fn obeys_from_spec() -> bool {
        true
    }

    open spec fn from_spec(error: WireError) -> TransportError {
        TransportError::Io(error)
    }
}

/// The conversion of a protocol's failure keeps its class.
pub proof fn conversion_keeps_the_class(socks: SocksError, naive: NaiveError)
    ensures
        <TransportError as vstd::std_specs::convert::FromSpec<SocksError>>::from_spec(
            socks,
        )@.class() == socks@.class(),
        <TransportError as vstd::std_specs::convert::FromSpec<NaiveError>>::from_spec(
            naive,
        )@.class() == naive@.class(),
{
}

} // verus!
