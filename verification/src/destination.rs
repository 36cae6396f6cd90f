//! Where a flow goes: an address or a name, and a port.
use crate::address_text::{ipv4_of, ipv6_of, lemma_address_len, read_ipv4, read_ipv6};
use vstd::prelude::*;
use vstd::string::*;
use vstd::utf8::encode_utf8;

verus! {

/// A host. A name is kept as it was given or as it came off the wire, so that
/// whoever is asked to reach it resolves it. One that spells an address stands for
/// that address, and is read as such where it is written or tested.
#[derive(Clone, Debug, PartialEq, Eq)]
pub enum Host {
    V4([u8; 4]),
    V6([u8; 16]),
    Name(String),
}

/// The view of a host.
pub enum HostShape {
    V4(Seq<u8>),
    V6(Seq<u8>),
    Name(Seq<char>),
}

impl View for Host {
    type V = HostShape;

    open spec fn view(&self) -> HostShape {
        match self {
            Host::V4(octets) => HostShape::V4(octets@),
            Host::V6(octets) => HostShape::V6(octets@),
            Host::Name(name) => HostShape::Name(name@),
        }
    }
}

/// The octets of an address that stands for no particular host.
pub open spec fn all_zero(octets: Seq<u8>) -> bool {
    forall|i: int| 0 <= i < octets.len() ==> #[trigger] octets[i] == 0
}

impl HostShape {
    /// Whether an address has as many octets as its family.
    pub open spec fn valid(self) -> bool {
        match self {
            HostShape::V4(octets) => octets.len() == 4,
            HostShape::V6(octets) => octets.len() == 16,
            HostShape::Name(_) => true,
        }
    }

    /// The host with a name that spells an address read as that address.
    pub open spec fn read(self) -> HostShape {
        match self {
            HostShape::Name(text) => match (
                ipv4_of(encode_utf8(text)),
                ipv6_of(encode_utf8(text)),
            ) {
                (Some(octets), _) => HostShape::V4(octets),
                (None, Some(octets)) => HostShape::V6(octets),
                (None, None) => self,
            },
            _ => self,
        }
    }

    /// Whether the host is the unspecified address of its family, however it is
    /// written.
    pub open spec fn unspecified(self) -> bool {
        match self.read() {
            HostShape::V4(octets) => all_zero(octets),
            HostShape::V6(octets) => all_zero(octets),
            HostShape::Name(_) => false,
        }
    }
}

/// Reading a host once is enough, and what comes out has as many octets as its
/// family.
pub proof fn lemma_read_host(host: HostShape)
    requires
        host.valid(),
    ensures
        host.read().valid(),
        host.read().read() == host.read(),
{
    if let HostShape::Name(text) = host {
        lemma_address_len(encode_utf8(text));
    }
}

fn zero_octets(octets: &[u8]) -> (zero: bool)
    ensures
        zero == all_zero(octets@),
{
    for i in 0..octets.len()
        invariant
            forall|j: int| 0 <= j < i ==> #[trigger] octets@[j] == 0,
    {
        if octets[i] != 0 {
            assert(octets@[i as int] != 0);
            return false;
        }
    }
    true
}

impl Host {
    /// The host that a text names: an address where it spells one.
    pub fn of_text(text: &str) -> (host: Host)
        ensures
            host@ == HostShape::Name(text@).read(),
    {
        let bytes = text.as_bytes();
        if let Some(octets) = read_ipv4(bytes) {
            return Host::V4(octets);
        }
        if let Some(octets) = read_ipv6(bytes) {
            return Host::V6(octets);
        }
        Host::Name(text.to_owned())
    }

    /// The host with a name that spells an address read as that address.
    pub fn read(&self) -> (host: Host)
        ensures
            host@ == self@.read(),
    {
        match self {
            Host::V4(octets) => Host::V4(*octets),
            Host::V6(octets) => Host::V6(*octets),
            Host::Name(text) => Host::of_text(text.as_str()),
        }
    }

    /// Whether the host is the unspecified address of its family, however it is
    /// written.
    pub fn is_unspecified(&self) -> (unspecified: bool)
        ensures
            unspecified == self@.unspecified(),
    {
        match self.read() {
            Host::V4(octets) => zero_octets(octets.as_slice()),
            Host::V6(octets) => zero_octets(octets.as_slice()),
            Host::Name(_) => false,
        }
    }

    /// The same host.
    pub fn copy(&self) -> (copy: Host)
        ensures
            copy@ == self@,
    {
        match self {
            Host::V4(octets) => Host::V4(*octets),
            Host::V6(octets) => Host::V6(*octets),
            Host::Name(name) => Host::Name(name.as_str().to_owned()),
        }
    }
}

/// A host and a port.
#[derive(Clone, Debug, PartialEq, Eq)]
pub struct Destination {
    pub host: Host,
    pub port: u16,
}

/// The view of a destination.
pub struct DestinationShape {
    pub host: HostShape,
    pub port: u16,
}

impl View for Destination {
    type V = DestinationShape;

    open spec fn view(&self) -> DestinationShape {
        DestinationShape { host: self.host@, port: self.port }
    }
}

/// Where a datagram goes: to its own destination, or to that of the flow where it
/// names none.
pub open spec fn effective_destination(
    flow: DestinationShape,
    datagram: DestinationShape,
) -> DestinationShape {
    match datagram.host {
        HostShape::Name(name) => if name.len() == 0 {
            flow
        } else {
            datagram
        },
        _ => datagram,
    }
}

impl Destination {
    /// This destination, or that of the flow where this one is an empty name.
    pub fn or_flow<'a>(&'a self, flow: &'a Destination) -> (destination: &'a Destination)
        ensures
            destination@ == effective_destination(flow@, self@),
    {
        let unnamed = match &self.host {
            Host::Name(name) => name.as_str().unicode_len() == 0,
            _ => false,
        };
        if unnamed {
            flow
        } else {
            self
        }
    }

    /// A destination that is an IPv4 address.
    pub fn v4(octets: [u8; 4], port: u16) -> (destination: Destination)
        ensures
            destination@ == (DestinationShape { host: HostShape::V4(octets@), port }),
    {
        Destination { host: Host::V4(octets), port }
    }

    /// A destination that is an IPv6 address.
    pub fn v6(octets: [u8; 16], port: u16) -> (destination: Destination)
        ensures
            destination@ == (DestinationShape { host: HostShape::V6(octets@), port }),
    {
        Destination { host: Host::V6(octets), port }
    }

    /// A destination that is a name.
    pub fn named(name: &str, port: u16) -> (destination: Destination)
        ensures
            destination@ == (DestinationShape { host: HostShape::Name(name@), port }),
    {
        Destination { host: Host::Name(name.to_owned()), port }
    }

    /// The same destination.
    pub fn copy(&self) -> (copy: Destination)
        ensures
            copy@ == self@,
    {
        Destination { host: self.host.copy(), port: self.port }
    }
}

} // verus!
