//! What class of failure each failure is.
use crate::error::{ErrorKind, Fault};
use crate::naive::error::NaiveFault;
use crate::socks::error::{reply_of, SocksFault};
use crate::text::{decimal, hex_byte};
use crate::transport_error::TransportFault;
use vstd::prelude::*;
use vstd::string::*;

verus! {

/// A reply code is of the class that its meaning asks for, and every code without one is
/// an aborted connection. The reply in words ends with the code in hexadecimal.
pub proof fn a_reply_code_has_its_class(code: u8)
    ensures
        ({
            let reply = reply_of(code);
            &&& reply.wire_code() == code
            &&& SocksFault::Refused(reply).class() == if code == 0 {
                ErrorKind::Other
            } else if code == 2 {
                ErrorKind::PermissionDenied
            } else if code == 3 || code == 4 {
                ErrorKind::NotFound
            } else if code == 5 {
                ErrorKind::ConnectionRefused
            } else if code == 6 {
                ErrorKind::TimedOut
            } else if code == 7 || code == 8 {
                ErrorKind::Unsupported
            } else {
                ErrorKind::ConnectionAborted
            }
            &&& reply.sentence().len() >= 3
            &&& reply.sentence().last() == ')'
            &&& reply.sentence().drop_last().skip(reply.sentence().len() - 3) == hex_byte(code)
        }),
{
    let reply = reply_of(code);
    let text = reply.sentence();
    assert(hex_byte(code).len() == 2);
    assert(text.drop_last().skip(text.len() - 3) =~= hex_byte(code));
}

/// A server that wants other credentials than were offered, or refuses them, denies
/// permission. What it sends against the protocol is bad data, and an address that it
/// cannot take is unsupported. An error of the socket is of its own class.
pub proof fn a_handshake_failure_has_its_class(byte: u8, what: Seq<char>, fault: Fault)
    ensures
        SocksFault::UnexpectedAuthMethod(byte).class() == ErrorKind::PermissionDenied,
        SocksFault::NoAcceptableAuthMethod.class() == ErrorKind::PermissionDenied,
        SocksFault::AuthenticationFailed(byte).class() == ErrorKind::PermissionDenied,
        SocksFault::UnsupportedAddressType(byte).class() == ErrorKind::Unsupported,
        SocksFault::UnexpectedVersion(byte).class() == ErrorKind::InvalidData,
        SocksFault::UnexpectedAuthVersion(byte).class() == ErrorKind::InvalidData,
        SocksFault::Malformed(what).class() == ErrorKind::InvalidData,
        SocksFault::Io(fault).class() == fault.0 && SocksFault::Io(fault).sentence() == fault.1,
{
}

/// A tunnel that the server refuses is a refused connection, but one for which it wants
/// credentials, status 407, denies permission. A wrong configuration or request is wrong
/// input, and what no client can make sense of is bad data.
pub proof fn a_tunnel_failure_has_its_class(status: u16, what: Seq<char>, fault: Fault)
    ensures
        NaiveFault::Status(status).class() == if status == 407 {
            ErrorKind::PermissionDenied
        } else {
            ErrorKind::ConnectionRefused
        },
        NaiveFault::PaddingRefused.class() == ErrorKind::ConnectionRefused,
        NaiveFault::TlsRequired.class() == ErrorKind::InvalidInput,
        NaiveFault::AlpnMismatch.class() == ErrorKind::InvalidInput,
        NaiveFault::Invalid(what).class() == ErrorKind::InvalidInput,
        NaiveFault::UnknownPaddingType(what).class() == ErrorKind::InvalidData,
        NaiveFault::Http2(what).class() == ErrorKind::InvalidData,
        NaiveFault::Io(fault).class() == fault.0 && NaiveFault::Io(fault).sentence() == fault.1,
        ({
            let text = NaiveFault::Status(status).sentence();
            let digits = decimal(status as nat);
            text.len() >= digits.len() && text.skip(text.len() - digits.len()) == digits
        }),
{
    let text = NaiveFault::Status(status).sentence();
    let digits = decimal(status as nat);
    assert(text.skip(text.len() - digits.len()) =~= digits);
}

/// A failure of a transport is of the class, and in the words, of what failed in it.
pub proof fn a_transport_failure_is_what_failed_in_it(
    fault: Fault,
    socks: SocksFault,
    naive: NaiveFault,
)
    ensures
        TransportFault::Io(fault).class() == fault.0,
        TransportFault::Io(fault).sentence() == fault.1,
        TransportFault::Socks(socks).class() == socks.class(),
        TransportFault::Socks(socks).sentence() == socks.sentence(),
        TransportFault::Naive(naive).class() == naive.class(),
        TransportFault::Naive(naive).sentence() == naive.sentence(),
{
}

} // verus!
