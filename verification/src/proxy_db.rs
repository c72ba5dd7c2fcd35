//! The proxy directory: the durable dual index between peer identity, the
//! VPN-assigned address, and the last-known public IP, on top of the VPN
//! controller it owns.

use vstd::prelude::*;

use crate::dec::is_digit;
use crate::errors::GatewayError;
use crate::ip::{ipv4_of, ipv4_to_string, parse_ipv4, parse_ipv4_spec, Endpoint};
use crate::ipmap::IpMap;
use crate::peer::PeerInfo;
use crate::strmap::StrMap;
use crate::vpn::{find_entry_by_ip, peers_match, Vpn};

verus! {

/// A character of a hyphenated UUID: a lowercase hexadecimal digit or a
/// hyphen.
pub open spec fn is_uuid_char(c: char) -> bool {
    is_digit(c) || ('a' <= c && c <= 'f') || c == '-'
}

/// Relies on `uuid::Uuid::new_v4` and its `Display` impl: a fresh random
/// version-4 UUID, written in the hyphenated form — 36 characters, lowercase
/// hexadecimal digits and hyphens. Nothing relates two calls: the value is
/// random.
#[verifier::external_body]
fn fresh_uuid() -> (r: String)
    ensures
        r@.len() == 36,
        forall|i: int| 0 <= i < r@.len() ==> is_uuid_char(#[trigger] r@[i]),
{
    uuid::Uuid::new_v4().to_string()
}

/// The directory: who each VPN address belongs to, and where each identity
/// points back.
#[derive(Debug)]
pub struct ProxyDb {
    /// VPN address to the peer's identity and last-known public IP.
    pub internal_mapping: IpMap<PeerInfo>,
    /// Peer identity to its VPN address.
    pub external_mapping: StrMap<u32>,
    /// The embedded VPN controller.
    pub vpn: Vpn,
}

impl ProxyDb {
    /// The directory invariant: both indices are maps, the controller is
    /// sound, and the two indices are mutual inverses — every identity leads
    /// to an address whose row carries that identity, and every row's
    /// identity leads back to its address.
    pub open spec fn wf(&self) -> bool {
        &&& self.internal_mapping.wf()
        &&& self.external_mapping.wf()
        &&& self.vpn.wf()
        &&& forall|j: int|
            0 <= j < self.external_mapping.kvs().len() ==> {
                let e = #[trigger] self.external_mapping.kvs()[j];
                match self.internal_mapping.get_spec(e.1) {
                    Some(info) => info.id@ == e.0@,
                    None => false,
                }
            }
        &&& forall|j: int|
            0 <= j < self.internal_mapping.kvs().len() ==> {
                let e = #[trigger] self.internal_mapping.kvs()[j];
                self.external_mapping.get_spec(e.1.id@) == Some(e.0)
            }
    }

    /// The index-inverse law, read from an identity: whatever address the
    /// external index gives for an identity, the internal index's row there
    /// carries exactly that identity.
    pub proof fn lemma_index_inverse(&self, id: Seq<char>)
        requires
            self.wf(),
            self.external_mapping.get_spec(id) is Some,
        ensures
            match self.internal_mapping.get_spec(self.external_mapping.get_spec(id).unwrap()) {
                Some(info) => info.id@ == id,
                None => false,
            },
    {
        crate::strmap::lemma_get_props(self.external_mapping.kvs(), id);
    }

    /// The index-inverse law, read from an address: whatever row the internal
    /// index holds at an address, the external index sends the row's identity
    /// back to that address.
    pub proof fn lemma_index_inverse_back(&self, vpn_ip: u32)
        requires
            self.wf(),
            self.internal_mapping.get_spec(vpn_ip) is Some,
        ensures
            self.external_mapping.get_spec(self.internal_mapping.get_spec(vpn_ip).unwrap().id@)
                == Some(vpn_ip),
    {
        crate::ipmap::lemma_get_props(self.internal_mapping.kvs(), vpn_ip);
    }

    /// Files a peer under a VPN address. An address that already has a row
    /// keeps it — the same identity is answered again and nothing changes.
    /// A new address gets a fresh identity, filed in both indices. Fails
    /// only when the freshly minted identity is already taken, which leaves
    /// the directory unchanged.
    pub fn insert_peer(&mut self, peer_public_ip: String, peer_vpn_ip: u32) -> (r: Result<
        String,
        GatewayError,
    >)
        requires
            old(self).wf(),
        ensures
            final(self).wf(),
            final(self).vpn == old(self).vpn,
            old(self).internal_mapping.contains_spec(peer_vpn_ip) ==> r is Ok,
            match r {
                Ok(id) => match old(self).internal_mapping.get_spec(peer_vpn_ip) {
                    Some(info) => id@ == info.id@ && *final(self) == *old(self),
                    None => {
                        &&& (match final(self).internal_mapping.get_spec(peer_vpn_ip) {
                            Some(info) => info.id@ == id@ && info.public_ip@ == peer_public_ip@,
                            None => false,
                        })
                        &&& forall|q: u32|
                            q != peer_vpn_ip ==> final(self).internal_mapping.get_spec(q) == old(
                                self,
                            ).internal_mapping.get_spec(q)
                        &&& final(self).external_mapping.get_spec(id@) == Some(peer_vpn_ip)
                        &&& forall|q: Seq<char>|
                            q != id@ ==> final(self).external_mapping.get_spec(q) == old(
                                self,
                            ).external_mapping.get_spec(q)
                        &&& !old(self).external_mapping.contains_spec(id@)
                    },
                },
                Err(e) => e == GatewayError::IdCollision && *final(self) == *old(self),
            },
    {
        match self.internal_mapping.get(peer_vpn_ip) {
            Some(info) => {
                let id = info.id.clone();
                return Ok(id);
            },
            None => {},
        }
        let id = fresh_uuid();
        if self.external_mapping.contains(&id) {
            return Err(GatewayError::IdCollision);
        }
        let info = PeerInfo { id: id.clone(), public_ip: peer_public_ip };
        let ghost internal_before = self.internal_mapping;
        let ghost external_before = self.external_mapping;
        self.internal_mapping.insert_new(peer_vpn_ip, info);
        self.external_mapping.insert_new(id.clone(), peer_vpn_ip);
        proof {
            assert forall|j: int|
                0 <= j < self.external_mapping.kvs().len() implies {
                let e = #[trigger] self.external_mapping.kvs()[j];
                match self.internal_mapping.get_spec(e.1) {
                    Some(info2) => info2.id@ == e.0@,
                    None => false,
                }
            } by {
                if j < external_before.kvs().len() {
                    assert(self.external_mapping.kvs()[j] == external_before.kvs()[j]);
                    let e = self.external_mapping.kvs()[j];
                    if e.1 != peer_vpn_ip {
                        assert(self.internal_mapping.get_spec(e.1) == internal_before.get_spec(
                            e.1,
                        ));
                    } else {
                        // the old row at this address would have made the
                        // lookup hit above
                        assert(internal_before.get_spec(peer_vpn_ip) is None);
                        crate::strmap::lemma_get_props(external_before.kvs(), e.0@);
                        assert(false);
                    }
                } else {
                    assert(self.external_mapping.kvs()[j] == (
                        self.external_mapping.kvs().last().0,
                        peer_vpn_ip,
                    ));
                }
            }
            assert forall|j: int|
                0 <= j < self.internal_mapping.kvs().len() implies {
                let e = #[trigger] self.internal_mapping.kvs()[j];
                self.external_mapping.get_spec(e.1.id@) == Some(e.0)
            } by {
                let e = self.internal_mapping.kvs()[j];
                if j < internal_before.kvs().len() {
                    assert(e == internal_before.kvs()[j]);
                    assert(external_before.get_spec(e.1.id@) == Some(e.0));
                    if e.1.id@ != id@ {
                        assert(self.external_mapping.get_spec(e.1.id@) == external_before.get_spec(
                            e.1.id@,
                        ));
                    } else {
                        // the fresh identity was checked against the external
                        // index, which already knew this row's identity
                        assert(false);
                    }
                }
            }
        }
        Ok(id)
    }

    /// Files a peer given its addresses as text: the VPN address is parsed
    /// first, and a text that is no dotted quad is refused.
    pub fn map_peer_addresses(&mut self, peer_public_ip: String, peer_vpn_ip: String) -> (r:
        Result<String, GatewayError>)
        requires
            old(self).wf(),
        ensures
            final(self).wf(),
            final(self).vpn == old(self).vpn,
            match parse_ipv4_spec(peer_vpn_ip@) {
                None => r == Err::<String, GatewayError>(GatewayError::BadAddressText)
                    && *final(self) == *old(self),
                Some(v) => {
                    &&& (old(self).internal_mapping.contains_spec(v) ==> r is Ok)
                    &&& match r {
                        Ok(id) => match old(self).internal_mapping.get_spec(v) {
                            // an address that already has a row keeps it and
                            // answers the same identity again
                            Some(info) => id@ == info.id@ && *final(self) == *old(self),
                            // a new address gets a fresh identity in both indices
                            None => {
                                &&& (match final(self).internal_mapping.get_spec(v) {
                                    Some(info) => info.id@ == id@ && info.public_ip@
                                        == peer_public_ip@,
                                    None => false,
                                })
                                &&& forall|q: u32|
                                    q != v ==> final(self).internal_mapping.get_spec(q) == old(
                                        self,
                                    ).internal_mapping.get_spec(q)
                                &&& final(self).external_mapping.get_spec(id@) == Some(v)
                                &&& forall|q: Seq<char>|
                                    q != id@ ==> final(self).external_mapping.get_spec(q) == old(
                                        self,
                                    ).external_mapping.get_spec(q)
                                &&& !old(self).external_mapping.contains_spec(id@)
                            },
                        },
                        Err(e) => e == GatewayError::IdCollision && *final(self) == *old(self),
                    }
                },
            },
    {
        let ip = match parse_ipv4(peer_vpn_ip.as_str()) {
            Some(ip) => ip,
            None => {
                return Err(GatewayError::BadAddressText);
            },
        };
        self.insert_peer(peer_public_ip, ip)
    }

    /// The directory row at a VPN address; `PeerNotRegistered` exactly when
    /// there is none.
    pub fn get_peer_info(&self, peer_vpn_ip: u32) -> (r: Result<PeerInfo, GatewayError>)
        ensures
            match r {
                Ok(info) => self.internal_mapping.get_spec(peer_vpn_ip) == Some(info),
                Err(e) => self.internal_mapping.get_spec(peer_vpn_ip) is None && e
                    == GatewayError::PeerNotRegistered,
            },
    {
        match self.internal_mapping.get(peer_vpn_ip) {
            Some(info) => Ok(info.duplicate()),
            None => Err(GatewayError::PeerNotRegistered),
        }
    }

    /// The VPN address of an identity; `PeerNotRegistered` exactly when the
    /// identity is unknown.
    pub fn get_peer_internal_ip(&self, peer_id: &String) -> (r: Result<u32, GatewayError>)
        ensures
            match r {
                Ok(ip) => self.external_mapping.get_spec(peer_id@) == Some(ip),
                Err(e) => self.external_mapping.get_spec(peer_id@) is None && e
                    == GatewayError::PeerNotRegistered,
            },
    {
        match self.external_mapping.get(peer_id) {
            Some(ip) => Ok(*ip),
            None => Err(GatewayError::PeerNotRegistered),
        }
    }

    /// The public IP of the peer at a VPN address, from the directory alone:
    /// the row's address when there is one, or word that a fresh dump is
    /// needed.
    pub fn get_peer_public_ip(&self, peer_vpn_ip: u32) -> (r: Option<String>)
        ensures
            match r {
                Some(s) => match self.internal_mapping.get_spec(peer_vpn_ip) {
                    Some(info) => s@ == info.public_ip@,
                    None => false,
                },
                None => self.internal_mapping.get_spec(peer_vpn_ip) is None,
            },
    {
        match self.internal_mapping.get(peer_vpn_ip) {
            Some(info) => Some(info.public_ip.clone()),
            None => None,
        }
    }

    /// The public IP of the peer at a VPN address when the directory did not
    /// know it: the daemon's fresh dump replaces the controller's view, and
    /// the answer is the endpoint address of the peer that routes the
    /// address. The directory's own indices are not touched. Each outcome is
    /// tied to the dump alone, so exactly one can answer: a malformed dump
    /// fails and changes nothing; otherwise the controller holds the dump's
    /// peers and the call succeeds exactly when one of them routes the
    /// address and carries an endpoint.
    pub fn get_peer_public_ip_with_dump(&mut self, peer_vpn_ip: u32, dump: &str) -> (r: Result<
        String,
        GatewayError,
    >)
        requires
            old(self).wf(),
        ensures
            final(self).wf(),
            final(self).internal_mapping == old(self).internal_mapping,
            final(self).external_mapping == old(self).external_mapping,
            match r {
                Ok(s) => {
                    &&& crate::dump::parse_dump_spec(dump@) is Some
                    &&& peers_match(
                        final(self).vpn.peers,
                        crate::dump::parse_dump_spec(dump@).unwrap(),
                    )
                    &&& match find_entry_by_ip(final(self).vpn.peers.kvs(), peer_vpn_ip) {
                        Some(p) => match p@.remote_address {
                            Some(ep) => s@ == ipv4_of(ep.ip),
                            None => false,
                        },
                        None => false,
                    }
                },
                Err(GatewayError::BadDump) => crate::dump::parse_dump_spec(dump@) is None
                    && *final(self) == *old(self),
                Err(GatewayError::NoRemoteAddress) => {
                    &&& crate::dump::parse_dump_spec(dump@) is Some
                    &&& peers_match(
                        final(self).vpn.peers,
                        crate::dump::parse_dump_spec(dump@).unwrap(),
                    )
                    &&& match find_entry_by_ip(final(self).vpn.peers.kvs(), peer_vpn_ip) {
                        Some(p) => p@.remote_address is None,
                        None => false,
                    }
                },
                Err(GatewayError::PeerNotRegistered) => {
                    &&& crate::dump::parse_dump_spec(dump@) is Some
                    &&& peers_match(
                        final(self).vpn.peers,
                        crate::dump::parse_dump_spec(dump@).unwrap(),
                    )
                    &&& find_entry_by_ip(final(self).vpn.peers.kvs(), peer_vpn_ip) is None
                },
                Err(_) => false,
            },
    {
        let peer = match self.vpn.refresh_and_get_peer(peer_vpn_ip, dump) {
            Ok(peer) => peer,
            Err(e) => {
                return Err(e);
            },
        };
        match &peer.remote_address {
            Some(ep) => Ok(ipv4_to_string(ep.ip)),
            None => Err(GatewayError::NoRemoteAddress),
        }
    }

    /// A directory over a freshly built controller: every peer the daemon
    /// already knew that has a remote address is filed, under its first
    /// allowed address, with a fresh identity; peers without an endpoint get
    /// no row. Only a fresh-identity mint can fail, so a controller whose
    /// peers all lack an endpoint is always accepted.
    pub fn new(vpn: Vpn) -> (r: Result<ProxyDb, GatewayError>)
        requires
            vpn.wf(),
        ensures
            match r {
                Ok(db) => {
                    &&& db.wf()
                    &&& db.vpn == vpn
                    &&& forall|j: int|
                        0 <= j < vpn.peers.kvs().len() ==> ((#[trigger] vpn.peers.kvs()[j]).1.remote_address
                            is Some ==> db.internal_mapping.contains_spec(
                            vpn.peers.kvs()[j].1.allowed_ips@[0],
                        ))
                    &&& forall|q: u32|
                        #[trigger] db.internal_mapping.contains_spec(q) ==> routed_with_endpoint(
                            vpn,
                            q,
                            vpn.peers.kvs().len() as int,
                        )
                },
                Err(e) => e == GatewayError::IdCollision && exists|j: int|
                    0 <= j < vpn.peers.kvs().len() && (#[trigger] vpn.peers.kvs()[j]).1.remote_address
                        is Some,
            },
    {
        let mut db = ProxyDb {
            internal_mapping: IpMap::new(),
            external_mapping: StrMap::new(),
            vpn,
        };
        let n = db.vpn.peers.len();
        let mut i: usize = 0;
        while i < n
            invariant
                n == db.vpn.peers.kvs().len(),
                0 <= i <= n,
                db.wf(),
                db.vpn == vpn,
                forall|j: int|
                    0 <= j < i ==> ((#[trigger] vpn.peers.kvs()[j]).1.remote_address is Some
                        ==> db.internal_mapping.contains_spec(
                        vpn.peers.kvs()[j].1.allowed_ips@[0],
                    )),
                forall|q: u32|
                    #[trigger] db.internal_mapping.contains_spec(q) ==> routed_with_endpoint(
                        vpn,
                        q,
                        i as int,
                    ),
            decreases n - i,
        {
            let entry = db.vpn.peers.val_at(i);
            let remote = entry.remote_address;
            let first_ip = entry.allowed_ips[0];
            let ghost db_before = db;
            match remote {
                Some(ep) => {
                    let public_ip = ipv4_to_string(ep.ip);
                    match db.insert_peer(public_ip, first_ip) {
                        Ok(_) => {},
                        Err(e) => {
                            proof {
                                assert(vpn.peers.kvs()[i as int].1.remote_address is Some);
                            }
                            return Err(e);
                        },
                    }
                    proof {
                        assert forall|j: int|
                            0 <= j < i + 1 implies ((#[trigger] vpn.peers.kvs()[j]).1.remote_address
                            is Some ==> db.internal_mapping.contains_spec(
                            vpn.peers.kvs()[j].1.allowed_ips@[0],
                        )) by {
                            let q = vpn.peers.kvs()[j].1.allowed_ips@[0];
                            if j < i && vpn.peers.kvs()[j].1.remote_address is Some {
                                if q != first_ip {
                                    assert(db.internal_mapping.get_spec(q)
                                        == db_before.internal_mapping.get_spec(q));
                                }
                            }
                        }
                        assert forall|q: u32|
                            #[trigger] db.internal_mapping.contains_spec(q) implies
                            routed_with_endpoint(vpn, q, i + 1) by {
                            if q == first_ip {
                                assert(vpn.peers.kvs()[i as int].1.remote_address is Some
                                    && vpn.peers.kvs()[i as int].1.allowed_ips@[0] == q);
                            } else {
                                assert(db.internal_mapping.get_spec(q)
                                    == db_before.internal_mapping.get_spec(q));
                                assert(db_before.internal_mapping.contains_spec(q));
                                assert(routed_with_endpoint(vpn, q, i as int));
                                let w = choose|j: int|
                                    0 <= j < i && (#[trigger] vpn.peers.kvs()[j]).1.remote_address
                                        is Some && vpn.peers.kvs()[j].1.allowed_ips@[0] == q;
                                assert(vpn.peers.kvs()[w].1.remote_address is Some
                                    && vpn.peers.kvs()[w].1.allowed_ips@[0] == q);
                            }
                        }
                    }
                },
                None => {
                    proof {
                        assert forall|q: u32|
                            #[trigger] db.internal_mapping.contains_spec(q) implies
                            routed_with_endpoint(vpn, q, i + 1) by {
                            let w = choose|j: int|
                                0 <= j < i && (#[trigger] vpn.peers.kvs()[j]).1.remote_address
                                    is Some && vpn.peers.kvs()[j].1.allowed_ips@[0] == q;
                            assert(vpn.peers.kvs()[w].1.remote_address is Some
                                && vpn.peers.kvs()[w].1.allowed_ips@[0] == q);
                        }
                    }
                },
            }
            i = i + 1;
        }
        Ok(db)
    }
}

/// Whether one of the first `n` controller peers both routes `q` as its
/// first allowed address and carries an endpoint: the condition under which
/// seeding files a directory row at `q`.
pub open spec fn routed_with_endpoint(vpn: Vpn, q: u32, n: int) -> bool {
    exists|j: int|
        0 <= j < n && (#[trigger] vpn.peers.kvs()[j]).1.remote_address is Some
            && vpn.peers.kvs()[j].1.allowed_ips@[0] == q
}

} // verus!
