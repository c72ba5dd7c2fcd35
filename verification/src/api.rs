//! The bodies of the gateway's HTTP endpoints, and the error they answer
//! with. Serialising these to the wire is the HTTP edge's business; here they
//! are plain values.

use vstd::prelude::*;

use crate::errors::{message_spec, GatewayError};

verus! {

/// The body of a registration request.
#[derive(Debug)]
pub struct RegisterPeerRequestBody {
    pub public_key: String,
    pub preshared_key: Option<String>,
}

/// The body of a successful registration answer.
#[derive(Debug)]
pub struct RegisterPeerResponseBody {
    /// The WireGuard interface's public key, for the peer's config.
    pub server_public_key: String,
    /// The VPN address assigned to the peer, as text.
    pub assigned_ip: String,
    /// The identity minted (or re-answered) for the peer.
    pub assigned_id: String,
    /// Where the gateway itself is reachable inside the VPN, `host:port`.
    pub proxy_address: String,
}

/// The body of a peer-info answer.
#[derive(Debug)]
pub struct PeerInfoResponseBody {
    pub id: String,
    pub internal_ip: String,
    pub public_ip: String,
    pub public_key: String,
    pub proxy_address: String,
}

/// The error an endpoint answers with: a bare message.
#[derive(Debug)]
pub struct ApiError {
    pub message: String,
}

impl ApiError {
    /// The API wording of a gateway error.
    pub fn from_error(e: &GatewayError) -> (r: ApiError)
        ensures
            r.message@ == message_spec(*e),
    {
        ApiError { message: e.message().to_owned() }
    }
}

} // verus!
