//! Small shared enumerations: the IP version and the transport protocols that
//! a header can name.
use vstd::prelude::*;

verus! {

/// The two address families.
#[derive(Debug, Clone, Copy, PartialEq, Eq, Structural)]
pub enum Version {
    IpV4,
    IpV6,
}

/// The transport protocols that a header's protocol / next-header field may name.
#[derive(Debug, Clone, Copy, PartialEq, Eq, Structural)]
pub enum TransportProtocolsNumbers {
    Tcp,
    Udp,
    Sctp,
}

/// The IANA protocol number of `p`.
pub open spec fn protocol_number(p: TransportProtocolsNumbers) -> u8 {
    match p {
        TransportProtocolsNumbers::Tcp => 6,
        TransportProtocolsNumbers::Udp => 17,
        TransportProtocolsNumbers::Sctp => 132,
    }
}

/// The protocol whose IANA number is `n`, if it is one of the known ones.
pub open spec fn protocol_of(n: u8) -> Option<TransportProtocolsNumbers> {
    if n == 6 {
        Some(TransportProtocolsNumbers::Tcp)
    } else if n == 17 {
        Some(TransportProtocolsNumbers::Udp)
    } else if n == 132 {
        Some(TransportProtocolsNumbers::Sctp)
    } else {
        None
    }
}

impl TransportProtocolsNumbers {
    /// The protocol's IANA number.
    pub fn number(&self) -> (r: u8)
        ensures
            r == protocol_number(*self),
    {
        match self {
            TransportProtocolsNumbers::Tcp => 6,
            TransportProtocolsNumbers::Udp => 17,
            TransportProtocolsNumbers::Sctp => 132,
        }
    }

    /// The protocol with IANA number `n`, or `None` for any other number.
    pub fn from_number(n: u8) -> (r: Option<TransportProtocolsNumbers>)
        ensures
            r == protocol_of(n),
    {
        if n == 6 {
            Some(TransportProtocolsNumbers::Tcp)
        } else if n == 17 {
            Some(TransportProtocolsNumbers::Udp)
        } else if n == 132 {
            Some(TransportProtocolsNumbers::Sctp)
        } else {
            None
        }
    }
}

/// Reading a protocol back from its number gives the protocol.
pub proof fn lemma_protocol_number_round_trip(p: TransportProtocolsNumbers)
    ensures
        protocol_of(protocol_number(p)) == Some(p),
{
}

} // verus!
