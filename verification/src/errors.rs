//! The error taxonomy of the gateway: every failure a verified function can
//! report, with the text shown to HTTP clients.

use vstd::prelude::*;

verus! {

/// What can go wrong inside the gateway's control plane and directory.
#[derive(Clone, Copy, Debug, PartialEq, Eq, Structural)]
pub enum GatewayError {
    /// A `wg show <if> dump` answer had an unexpected shape: a peer line with
    /// fewer than four fields, or an endpoint that is not `ipv4:port`.
    BadDump,
    /// The /24 is exhausted: no VPN address is left to hand out.
    NoAvailableIp,
    /// The peer is known neither to the directory nor to the daemon.
    PeerNotRegistered,
    /// The HTTP layer could not tell where the request came from.
    NoRemoteAddress,
    /// The request came over IPv6, which the gateway does not serve.
    Ipv6Remote,
    /// A freshly minted peer identifier collided with one already issued.
    IdCollision,
    /// A text that should have been an IPv4 address was not.
    BadAddressText,
    /// A two-step registration came back to be recorded, but the directory
    /// had moved on: the key is taken or the reserved address is no longer
    /// the next free one.
    StaleRegistration,
}

/// The wording each error surfaces with at the HTTP level.
pub open spec fn message_spec(e: GatewayError) -> Seq<char> {
    match e {
        GatewayError::BadDump => "Unexpected wg dump format"@,
        GatewayError::NoAvailableIp => "No available ip address"@,
        GatewayError::PeerNotRegistered => "Peer not registered"@,
        GatewayError::NoRemoteAddress => "No remote address"@,
        GatewayError::Ipv6Remote => "Peer is using IPv6"@,
        GatewayError::IdCollision => "Peer id collision"@,
        GatewayError::BadAddressText => "Malformed IPv4 address"@,
        GatewayError::StaleRegistration => "Registration out of date"@,
    }
}

impl GatewayError {
    /// The wording each error surfaces with at the HTTP level.
    pub fn message(&self) -> (r: &'static str)
        ensures
            r@ == message_spec(*self),
    {
        match self {
            GatewayError::BadDump => "Unexpected wg dump format",
            GatewayError::NoAvailableIp => "No available ip address",
            GatewayError::PeerNotRegistered => "Peer not registered",
            GatewayError::NoRemoteAddress => "No remote address",
            GatewayError::Ipv6Remote => "Peer is using IPv6",
            GatewayError::IdCollision => "Peer id collision",
            GatewayError::BadAddressText => "Malformed IPv4 address",
            GatewayError::StaleRegistration => "Registration out of date",
        }
    }
}

} // verus!
