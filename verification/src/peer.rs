//! The data the gateway keeps about a WireGuard peer: what the daemon reports
//! about it, and the directory row the gateway adds on top.

use vstd::prelude::*;

use crate::ip::Endpoint;

verus! {

/// A peer as the WireGuard daemon reports it in a dump line.
#[derive(Debug)]
pub struct RegisteredPeer {
    /// The peer's WireGuard public key, an opaque non-empty string.
    pub public_key: String,
    /// The preshared key, if one is set; `""` and `"(none)"` in a dump mean
    /// none.
    pub preshared_key: Option<String>,
    /// The peer's public socket as the daemon last observed it, if any.
    pub remote_address: Option<Endpoint>,
    /// The VPN addresses routed to the peer; exactly one in this system.
    pub allowed_ips: Vec<u32>,
}

/// The mathematical shape of a [`RegisteredPeer`].
pub struct PeerView {
    pub public_key: Seq<char>,
    pub preshared_key: Option<Seq<char>>,
    pub remote_address: Option<Endpoint>,
    pub allowed_ips: Seq<u32>,
}

impl View for RegisteredPeer {
    type V = PeerView;

    open spec fn view(&self) -> PeerView {
        PeerView {
            public_key: self.public_key@,
            preshared_key: match self.preshared_key {
                Some(k) => Some(k@),
                None => None,
            },
            remote_address: self.remote_address,
            allowed_ips: self.allowed_ips@,
        }
    }
}

impl RegisteredPeer {
    /// A copy with the same view.
    pub fn duplicate(&self) -> (r: Self)
        ensures
            r@ == self@,
    {
        let r = RegisteredPeer {
            public_key: self.public_key.clone(),
            preshared_key: match &self.preshared_key {
                Some(k) => Some(k.clone()),
                None => None,
            },
            remote_address: self.remote_address,
            allowed_ips: self.allowed_ips.clone(),
        };
        proof {
            assert(r@.preshared_key == self@.preshared_key);
            assert(r@ == self@);
        }
        r
    }
}

/// The directory row of a peer: the identity the gateway mints for it and the
/// public address it was last seen from.
#[derive(Debug)]
pub struct PeerInfo {
    /// The identifier assigned at first registration, stable for the lifetime
    /// of the entry: the text of a version-4 UUID.
    pub id: String,
    /// The textual public IP of the peer, without a port.
    pub public_ip: String,
}

/// The mathematical shape of a [`PeerInfo`].
pub struct PeerInfoView {
    pub id: Seq<char>,
    pub public_ip: Seq<char>,
}

impl View for PeerInfo {
    type V = PeerInfoView;

    open spec fn view(&self) -> PeerInfoView {
        PeerInfoView { id: self.id@, public_ip: self.public_ip@ }
    }
}

impl PeerInfo {
    /// A copy with the same fields.
    pub fn duplicate(&self) -> (r: Self)
        ensures
            r == *self,
    {
        PeerInfo { id: self.id.clone(), public_ip: self.public_ip.clone() }
    }
}

} // verus!
