//! What a datagram association decides: where its relay is, what goes out, what
//! comes in, and when it ends.
use crate::destination::{
    effective_destination, Destination, DestinationShape, Host, HostShape,
};
use crate::error::{invalid_data, ErrorKind, Fault, WireError};
use crate::octets::to_vec;
use crate::socks::codec::{
    decode_udp_datagram, encode_udp_datagram, framed_datagram, read_datagram,
};
use vstd::prelude::*;

verus! {

/// How many bytes the control connection may send that the protocol does not
/// define before the association is dropped: enough for a keep-alive or a stray
/// banner, but not for an endless stream.
pub const MAX_UNSOLICITED_CONTROL_BYTES: usize = 64 * 1024;

/// The destination of the request for an association. The client does not know
/// its source address yet and sends zeros.
pub fn unspecified_source() -> (source: Destination)
    ensures
        source@ == (DestinationShape {
            host: HostShape::V4(seq![0u8, 0u8, 0u8, 0u8]),
            port: 0,
        }),
{
    let octets: [u8; 4] = [0u8, 0u8, 0u8, 0u8];
    assert(octets@ =~= seq![0u8, 0u8, 0u8, 0u8]);
    Destination { host: Host::V4(octets), port: 0 }
}

/// The relay that a server has bound. An unspecified address, however it is
/// written, means the host of the control connection; a name that spells no
/// address has yet to be resolved.
pub open spec fn relay_of(bound: DestinationShape, server: HostShape) -> Result<
    DestinationShape,
    Fault,
> {
    if bound.port == 0 {
        Err(invalid_data("SOCKS5 UDP ASSOCIATE returned port 0"@))
    } else if bound.host.unspecified() {
        Ok(DestinationShape { host: server, port: bound.port })
    } else {
        Ok(DestinationShape { host: bound.host.read(), port: bound.port })
    }
}

/// The relay that a server has bound.
pub fn relay_address(bound: &Destination, server: &Host) -> (result: Result<
    Destination,
    WireError,
>)
    ensures
        match relay_of(bound@, server@) {
            Ok(relay) => result matches Ok(actual) && actual@ == relay,
            Err(fault) => result matches Err(error) && error@ == fault,
        },
{
    if bound.port == 0 {
        return Err(
            WireError::new(ErrorKind::InvalidData, "SOCKS5 UDP ASSOCIATE returned port 0"),
        );
    }
    if bound.host.is_unspecified() {
        Ok(Destination { host: server.copy(), port: bound.port })
    } else {
        Ok(Destination { host: bound.host.read(), port: bound.port })
    }
}

/// What an event of an association leads to.
#[derive(Debug)]
pub enum RelayAction {
    /// The association is over.
    End,
    /// Nothing is to be done.
    Continue,
    /// Send this frame to the relay.
    Send(Vec<u8>),
    /// Hand this datagram to the flow.
    Deliver(Destination, Vec<u8>),
}

/// The view of such an action.
pub enum RelayActionShape {
    End,
    Continue,
    Send(Seq<u8>),
    Deliver(DestinationShape, Seq<u8>),
}

impl View for RelayAction {
    type V = RelayActionShape;

    open spec fn view(&self) -> RelayActionShape {
        match self {
            RelayAction::End => RelayActionShape::End,
            RelayAction::Continue => RelayActionShape::Continue,
            RelayAction::Send(frame) => RelayActionShape::Send(frame@),
            RelayAction::Deliver(source, payload) => RelayActionShape::Deliver(source@, payload@),
        }
    }
}

/// A datagram association.
pub struct DatagramRelay {
    default_destination: Destination,
    control_slack: usize,
}

/// The view of an association: where datagrams without a destination go, and how
/// many undefined bytes its control connection may still send.
pub struct RelayShape {
    pub default_destination: DestinationShape,
    pub slack: int,
}

impl View for DatagramRelay {
    type V = RelayShape;

    closed spec fn view(&self) -> RelayShape {
        RelayShape {
            default_destination: self.default_destination@,
            slack: self.control_slack as int,
        }
    }
}

/// What is left of the allowance after `length` bytes more.
pub open spec fn slack_after(slack: int, length: int) -> int {
    if length < slack {
        slack - length
    } else {
        0
    }
}

/// What a read of the control connection leads to. Its end is the end of the
/// association; bytes on it are discarded as long as the allowance lasts.
pub open spec fn control_action(slack: int, read: Option<usize>) -> RelayActionShape {
    match read {
        None => RelayActionShape::End,
        Some(length) => if length == 0 || slack_after(slack, length as int) == 0 {
            RelayActionShape::End
        } else {
            RelayActionShape::Continue
        },
    }
}

/// What a datagram of the flow leads to. One that cannot be framed is dropped.
pub open spec fn outgoing_action(
    default_destination: DestinationShape,
    outgoing: Option<(DestinationShape, Seq<u8>)>,
) -> RelayActionShape {
    match outgoing {
        None => RelayActionShape::End,
        Some((destination, payload)) => match framed_datagram(
            Seq::empty(),
            effective_destination(default_destination, destination),
            payload,
        ) {
            (Ok(_), frame) => RelayActionShape::Send(frame),
            (Err(_), _) => RelayActionShape::Continue,
        },
    }
}

/// What a datagram from the relay leads to. One that is malformed or a fragment
/// is dropped: one bad datagram does not end the association.
pub open spec fn incoming_action(received: Option<Seq<u8>>) -> RelayActionShape {
    match received {
        None => RelayActionShape::End,
        Some(frame) => match read_datagram(frame) {
            Ok((source, payload)) => RelayActionShape::Deliver(source, payload),
            Err(_) => RelayActionShape::Continue,
        },
    }
}

impl DatagramRelay {
    /// An association whose datagrams go to `destination` unless they name
    /// another.
    pub fn new(destination: &Destination) -> (relay: DatagramRelay)
        ensures
            relay@ == (RelayShape {
                default_destination: destination@,
                slack: MAX_UNSOLICITED_CONTROL_BYTES as int,
            }),
    {
        DatagramRelay {
            default_destination: destination.copy(),
            control_slack: MAX_UNSOLICITED_CONTROL_BYTES,
        }
    }

    /// The control connection gave this many bytes, or failed.
    pub fn control_read(&mut self, read: Option<usize>) -> (action: RelayAction)
        ensures
            action@ == control_action(old(self)@.slack, read),
            final(self)@ == (RelayShape {
                slack: match read {
                    Some(length) => slack_after(old(self)@.slack, length as int),
                    None => old(self)@.slack,
                },
                ..old(self)@
            }),
    {
        match read {
            None => RelayAction::End,
            Some(length) => {
                self.control_slack = if length < self.control_slack {
                    self.control_slack - length
                } else {
                    0
                };
                if length == 0 || self.control_slack == 0 {
                    RelayAction::End
                } else {
                    RelayAction::Continue
                }
            },
        }
    }

    /// The flow sent a datagram, or is over.
    pub fn outgoing(&self, outgoing: Option<(&Destination, &[u8])>) -> (action: RelayAction)
        ensures
            action@ == outgoing_action(
                self@.default_destination,
                match outgoing {
                    Some((destination, payload)) => Some((destination@, payload@)),
                    None => None,
                },
            ),
    {
        match outgoing {
            None => RelayAction::End,
            Some((destination, payload)) => {
                let mut frame: Vec<u8> = Vec::new();
                assert(frame@ =~= Seq::<u8>::empty());
                let target = destination.or_flow(&self.default_destination);
                match encode_udp_datagram(target, payload, &mut frame) {
                    Ok(()) => RelayAction::Send(frame),
                    Err(_) => RelayAction::Continue,
                }
            },
        }
    }

    /// The relay sent a datagram, or its socket failed.
    pub fn incoming(&self, received: Option<&[u8]>) -> (action: RelayAction)
        ensures
            action@ == incoming_action(
                match received {
                    Some(frame) => Some(frame@),
                    None => None,
                },
            ),
    {
        match received {
            None => RelayAction::End,
            Some(frame) => match decode_udp_datagram(frame) {
                Ok((source, payload)) => RelayAction::Deliver(source, to_vec(payload)),
                Err(_) => RelayAction::Continue,
            },
        }
    }
}

/// The allowance after reads of these lengths.
pub open spec fn slack_after_all(slack: int, lengths: Seq<int>) -> int
    decreases lengths.len(),
{
    if lengths.len() == 0 {
        slack
    } else {
        slack_after(slack_after_all(slack, lengths.drop_last()), lengths.last())
    }
}

/// The sum of lengths.
pub open spec fn total(lengths: Seq<int>) -> int
    decreases lengths.len(),
{
    if lengths.len() == 0 {
        0
    } else {
        total(lengths.drop_last()) + lengths.last()
    }
}

/// However its bytes are cut into reads, a control connection that keeps sending
/// ends the association as soon as the whole allowance is used, and not before.
pub proof fn a_talkative_control_connection_is_bounded(lengths: Seq<int>)
    requires
        forall|i: int| 0 <= i < lengths.len() ==> #[trigger] lengths[i] > 0,
    ensures
        slack_after_all(MAX_UNSOLICITED_CONTROL_BYTES as int, lengths) == if total(lengths)
            < MAX_UNSOLICITED_CONTROL_BYTES {
            MAX_UNSOLICITED_CONTROL_BYTES - total(lengths)
        } else {
            0
        },
        total(lengths) >= 0,
    decreases lengths.len(),
{
    if lengths.len() > 0 {
        assert forall|i: int| 0 <= i < lengths.drop_last().len() implies #[trigger]
            lengths.drop_last()[i] > 0 by {
            assert(lengths[i] > 0);
        }
        a_talkative_control_connection_is_bounded(lengths.drop_last());
        assert(lengths[lengths.len() - 1] > 0);
    }
}

} // verus!
