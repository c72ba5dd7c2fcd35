//! The VPN controller: the gateway's view of the WireGuard interface.
//!
//! The daemon is the source of truth; this state is rebuilt from its dumps.
//! Running the tools happens outside the crate: every operation here is a
//! decision over the state and a tool's output, and an operation that needs a
//! tool run first (a `wg set`, a fresh dump) says so in its result and is
//! completed by a second call once the output is in hand.

use vstd::prelude::*;

use crate::dump::{lemma_parsed_peers_nonempty, parse_dump, parse_dump_spec};
use crate::errors::GatewayError;
use crate::ip::{
    next_available_ipv4_address, next_available_spec, Endpoint, WG_FIRST_ADDR, WG_NETMASK,
};
use crate::ipmap::IpMap;
use crate::peer::{PeerView, RegisteredPeer};
use crate::strmap::StrMap;
use crate::text::{trim, trim_spec};

verus! {

/// The peer a sequence of dump peers leaves behind for a key: the last line
/// with that key wins.
pub open spec fn dump_peer(ps: Seq<PeerView>, k: Seq<char>) -> Option<PeerView>
    decreases ps.len(),
{
    if ps.len() == 0 {
        None
    } else if ps.last().public_key == k {
        Some(ps.last())
    } else {
        dump_peer(ps.drop_last(), k)
    }
}

/// The key owning a VPN address after ingesting dump peers: the last peer
/// whose first allowed address is the address wins.
pub open spec fn dump_ip_owner(ps: Seq<PeerView>, ip: u32) -> Option<Seq<char>>
    decreases ps.len(),
{
    if ps.len() == 0 {
        None
    } else if ps.last().allowed_ips.len() > 0 && ps.last().allowed_ips[0] == ip {
        Some(ps.last().public_key)
    } else {
        dump_ip_owner(ps.drop_last(), ip)
    }
}

/// The first dump peer that routes `ip` anywhere in its allowed list.
pub open spec fn find_peer_by_ip(ps: Seq<PeerView>, ip: u32) -> Option<PeerView>
    decreases ps.len(),
{
    if ps.len() == 0 {
        None
    } else if ps[0].allowed_ips.contains(ip) {
        Some(ps[0])
    } else {
        find_peer_by_ip(ps.drop_first(), ip)
    }
}

/// Whether the peers map reads, for every key, as the given dump peers do.
pub open spec fn peers_match(m: StrMap<RegisteredPeer>, ps: Seq<PeerView>) -> bool {
    forall|k: Seq<char>|
        match #[trigger] m.get_spec(k) {
            Some(p) => dump_peer(ps, k) == Some(p@),
            None => dump_peer(ps, k) is None,
        }
}

/// Whether the assigned-address map reads, for every address, as the given
/// dump peers do.
pub open spec fn assigned_match(a: IpMap<String>, ps: Seq<PeerView>) -> bool {
    forall|ip: u32|
        match #[trigger] a.get_spec(ip) {
            Some(pk) => dump_ip_owner(ps, ip) == Some(pk@),
            None => dump_ip_owner(ps, ip) is None,
        }
}

/// The stateful view of the WireGuard interface.
#[derive(Debug)]
pub struct Vpn {
    /// The interface's name, scraped once at construction.
    pub interface_name: String,
    /// The interface's public key, scraped once at construction.
    pub interface_public_key: String,
    /// The peers, keyed by public key.
    pub peers: StrMap<RegisteredPeer>,
    /// Who owns each assigned VPN address: address to public key.
    pub assigned_ips: IpMap<String>,
}

impl Vpn {
    /// The controller's invariant: both indices are maps; every recorded peer
    /// sits under its own public key, routes at least one address, and its
    /// first address is assigned; every assigned address belongs to a
    /// recorded key.
    pub open spec fn wf(&self) -> bool {
        &&& self.peers.wf()
        &&& self.assigned_ips.wf()
        &&& forall|i: int|
            0 <= i < self.peers.kvs().len() ==> {
                let e = #[trigger] self.peers.kvs()[i];
                &&& e.1.public_key@ == e.0@
                &&& e.1.allowed_ips@.len() > 0
                &&& self.assigned_ips.contains_spec(e.1.allowed_ips@[0])
            }
        &&& forall|i: int|
            0 <= i < self.assigned_ips.kvs().len() ==> self.peers.contains_spec(
                (#[trigger] self.assigned_ips.kvs()[i]).1@,
            )
    }

    /// Replaces both indices with what a dump says, peers keyed by public
    /// key, each first allowed address marked assigned; the interface fields
    /// stay. Fails exactly on a malformed dump, leaving the state unchanged.
    pub fn get_registered_peers(&mut self, dump: &str) -> (r: Result<(), GatewayError>)
        requires
            old(self).wf(),
        ensures
            final(self).wf(),
            final(self).interface_name == old(self).interface_name,
            final(self).interface_public_key == old(self).interface_public_key,
            match r {
                Ok(()) => {
                    &&& parse_dump_spec(dump@) is Some
                    &&& peers_match(final(self).peers, parse_dump_spec(dump@).unwrap())
                    &&& assigned_match(final(self).assigned_ips, parse_dump_spec(dump@).unwrap())
                },
                Err(e) => {
                    &&& parse_dump_spec(dump@) is None
                    &&& e == GatewayError::BadDump
                    &&& *final(self) == *old(self)
                },
            },
    {
        let parsed = match parse_dump(dump) {
            Ok(parsed) => parsed,
            Err(e) => {
                return Err(e);
            },
        };
        let ghost views = parse_dump_spec(dump@).unwrap();
        proof {
            lemma_parsed_peers_nonempty(crate::text::split_spec(dump@, '\n').drop_first());
        }
        self.peers = StrMap::new();
        self.assigned_ips = IpMap::new();
        let n = parsed.len();
        let mut i: usize = 0;
        proof {
            assert(views.take(0) =~= Seq::<PeerView>::empty());
        }
        while i < n
            invariant
                n == parsed@.len(),
                parsed@.len() == views.len(),
                forall|j: int| 0 <= j < views.len() ==> parsed@[j]@ == views[j],
                forall|j: int| 0 <= j < views.len() ==> (#[trigger] views[j]).allowed_ips.len()
                    > 0,
                0 <= i <= n,
                self.wf(),
                peers_match(self.peers, views.take(i as int)),
                assigned_match(self.assigned_ips, views.take(i as int)),
                self.interface_name == old(self).interface_name,
                self.interface_public_key == old(self).interface_public_key,
            decreases n - i,
        {
            let ghost pv = views[i as int];
            let p = parsed[i].duplicate();
            let pk = p.public_key.clone();
            let pk_for_ips = p.public_key.clone();
            let ip = p.allowed_ips[0];
            proof {
                assert(views.take(i + 1).drop_last() =~= views.take(i as int));
                assert(views.take(i + 1).last() == pv);
                assert(p@ == pv);
                assert(p.allowed_ips@[0] == pv.allowed_ips[0]);
            }
            let ghost peers_before = self.peers;
            if self.peers.contains(&pk) {
                self.peers.set_value(pk, p);
            } else {
                self.peers.insert_new(pk, p);
            }
            let ghost assigned_before = self.assigned_ips;
            if self.assigned_ips.contains(ip) {
                self.assigned_ips.set_value(ip, pk_for_ips);
            } else {
                self.assigned_ips.insert_new(ip, pk_for_ips);
            }
            proof {
                // the pointwise reading of both maps advances by one dump line
                assert forall|k: Seq<char>|
                    match #[trigger] self.peers.get_spec(k) {
                        Some(q) => dump_peer(views.take(i + 1), k) == Some(q@),
                        None => dump_peer(views.take(i + 1), k) is None,
                    } by {
                    if k == pv.public_key {
                        assert(self.peers.get_spec(k) == Some(
                            self.peers.kvs()[crate::strmap::key_index(self.peers.kvs(), k)].1,
                        )) by {
                            crate::strmap::lemma_get_props(self.peers.kvs(), k);
                        }
                    } else {
                        assert(self.peers.get_spec(k) == peers_before.get_spec(k));
                    }
                }
                assert forall|q: u32|
                    match #[trigger] self.assigned_ips.get_spec(q) {
                        Some(pk2) => dump_ip_owner(views.take(i + 1), q) == Some(pk2@),
                        None => dump_ip_owner(views.take(i + 1), q) is None,
                    } by {
                    if q != ip {
                        assert(self.assigned_ips.get_spec(q) == assigned_before.get_spec(q));
                    }
                }
                // the invariant ties the maps together again
                let pexisted = peers_before.contains_spec(pv.public_key);
                let pki = crate::strmap::key_index(peers_before.kvs(), pv.public_key);
                crate::strmap::lemma_get_props(peers_before.kvs(), pv.public_key);
                let aexisted = assigned_before.contains_spec(ip);
                let aki = crate::ipmap::key_index(assigned_before.kvs(), ip);
                crate::ipmap::lemma_get_props(assigned_before.kvs(), ip);
                assert forall|j: int|
                    0 <= j < self.peers.kvs().len() implies {
                    let e = #[trigger] self.peers.kvs()[j];
                    &&& e.1.public_key@ == e.0@
                    &&& e.1.allowed_ips@.len() > 0
                    &&& self.assigned_ips.contains_spec(e.1.allowed_ips@[0])
                } by {
                    let e = self.peers.kvs()[j];
                    let fresh = if pexisted {
                        j == pki
                    } else {
                        j == peers_before.kvs().len()
                    };
                    if fresh {
                        assert(e.1 == p);
                        assert(e.0@ == pv.public_key);
                        assert(self.assigned_ips.get_spec(ip) is Some);
                    } else {
                        assert(e == peers_before.kvs()[j]);
                        assert(assigned_before.contains_spec(e.1.allowed_ips@[0]));
                        if e.1.allowed_ips@[0] != ip {
                            assert(self.assigned_ips.get_spec(e.1.allowed_ips@[0])
                                == assigned_before.get_spec(e.1.allowed_ips@[0]));
                        }
                    }
                }
                assert forall|j: int|
                    0 <= j < self.assigned_ips.kvs().len() implies self.peers.contains_spec(
                    (#[trigger] self.assigned_ips.kvs()[j]).1@,
                ) by {
                    let v = self.assigned_ips.kvs()[j].1;
                    let fresh = if aexisted {
                        j == aki
                    } else {
                        j == assigned_before.kvs().len()
                    };
                    if fresh {
                        assert(v@ == pv.public_key);
                        assert(self.peers.get_spec(pv.public_key) is Some);
                    } else {
                        assert(self.assigned_ips.kvs()[j] == assigned_before.kvs()[j]);
                        assert(peers_before.contains_spec(v@));
                        if v@ != pv.public_key {
                            assert(self.peers.get_spec(v@) == peers_before.get_spec(v@));
                        }
                    }
                }
            }
            i = i + 1;
        }
        proof {
            assert(views.take(n as int) =~= views);
        }
        Ok(())
    }

    /// Builds a controller from the three scraped outputs: the interface
    /// name and public key, trimmed, and the peers of the first dump.
    pub fn new(interfaces_output: &str, public_key_output: &str, dump: &str) -> (r: Result<
        Vpn,
        GatewayError,
    >)
        ensures
            match r {
                Ok(v) => {
                    &&& v.wf()
                    &&& v.interface_name@ == trim_spec(interfaces_output@)
                    &&& v.interface_public_key@ == trim_spec(public_key_output@)
                    &&& parse_dump_spec(dump@) is Some
                    &&& peers_match(v.peers, parse_dump_spec(dump@).unwrap())
                    &&& assigned_match(v.assigned_ips, parse_dump_spec(dump@).unwrap())
                },
                Err(e) => parse_dump_spec(dump@) is None && e == GatewayError::BadDump,
            },
    {
        let mut vpn = Vpn {
            interface_name: get_interface_name(interfaces_output),
            interface_public_key: get_public_key(public_key_output),
            peers: StrMap::new(),
            assigned_ips: IpMap::new(),
        };
        match vpn.get_registered_peers(dump) {
            Ok(()) => Ok(vpn),
            Err(e) => Err(e),
        }
    }
}

/// The first map entry whose peer routes `ip` anywhere in its allowed list.
pub open spec fn find_entry_by_ip(s: Seq<(String, RegisteredPeer)>, ip: u32) -> Option<
    RegisteredPeer,
>
    decreases s.len(),
{
    if s.len() == 0 {
        None
    } else if s[0].1.allowed_ips@.contains(ip) {
        Some(s[0].1)
    } else {
        find_entry_by_ip(s.drop_first(), ip)
    }
}

/// Whether `v` holds `x`.
pub fn vec_contains_u32(v: &Vec<u32>, x: u32) -> (r: bool)
    ensures
        r == v@.contains(x),
{
    let n = v.len();
    let mut i: usize = 0;
    while i < n
        invariant
            n == v@.len(),
            0 <= i <= n,
            forall|j: int| 0 <= j < i ==> v@[j] != x,
        decreases n - i,
    {
        if v[i] == x {
            return true;
        }
        i = i + 1;
    }
    proof {
        assert(!v@.contains(x));
    }
    false
}

/// What one registration step asks of the caller.
#[derive(Debug)]
pub enum AddPeerStep {
    /// The peer was already registered; its remote address is updated and
    /// its record returned. No tool run is needed.
    Updated(RegisteredPeer),
    /// The peer is new and this address was reserved for it: tell the daemon
    /// (`wg set … allowed-ips <addr>`, then cycle the interface) and complete
    /// with [`Vpn::commit_new_peer`]. Nothing has changed yet.
    NeedsWgSet(u32),
    /// The peer is new but the /24 is exhausted. Nothing has changed.
    Exhausted,
}

impl Vpn {
    /// One registration step. For a known public key the stored peer's remote
    /// address is replaced and the record handed back; for a new key the next
    /// free address is reserved — the daemon must accept it before
    /// [`Vpn::commit_new_peer`] records the peer — or the address space is
    /// exhausted.
    pub fn add_or_update_peer(&mut self, public_key: &String, remote_address: Option<Endpoint>)
        -> (r: AddPeerStep)
        requires
            old(self).wf(),
        ensures
            final(self).wf(),
            final(self).interface_name == old(self).interface_name,
            final(self).interface_public_key == old(self).interface_public_key,
            final(self).assigned_ips == old(self).assigned_ips,
            match r {
                AddPeerStep::Updated(p) => {
                    &&& old(self).peers.contains_spec(public_key@)
                    &&& {
                        let before = old(self).peers.get_spec(public_key@).unwrap()@;
                        &&& p@.public_key == before.public_key
                        &&& p@.preshared_key == before.preshared_key
                        &&& p@.allowed_ips == before.allowed_ips
                        &&& p@.remote_address == remote_address
                    }
                    &&& match final(self).peers.get_spec(public_key@) {
                        Some(q) => q@ == p@,
                        None => false,
                    }
                    &&& forall|q: Seq<char>|
                        q != public_key@ ==> final(self).peers.get_spec(q) == old(
                            self,
                        ).peers.get_spec(q)
                },
                AddPeerStep::NeedsWgSet(ip) => {
                    &&& !old(self).peers.contains_spec(public_key@)
                    &&& next_available_spec(
                        old(self).assigned_ips.kvs(),
                        WG_NETMASK,
                        WG_FIRST_ADDR,
                    ) == Some(ip)
                    &&& *final(self) == *old(self)
                },
                AddPeerStep::Exhausted => {
                    &&& !old(self).peers.contains_spec(public_key@)
                    &&& next_available_spec(
                        old(self).assigned_ips.kvs(),
                        WG_NETMASK,
                        WG_FIRST_ADDR,
                    ) is None
                    &&& *final(self) == *old(self)
                },
            },
    {
        let found = self.peers.find(public_key);
        match found {
            Some(idx) => {
                let stored = self.peers.val_at(idx);
                let updated = RegisteredPeer {
                    public_key: stored.public_key.clone(),
                    preshared_key: match &stored.preshared_key {
                        Some(k) => Some(k.clone()),
                        None => None,
                    },
                    remote_address,
                    allowed_ips: stored.allowed_ips.clone(),
                };
                let returned = updated.duplicate();
                let ghost peers_before = self.peers;
                let ghost pki = crate::strmap::key_index(peers_before.kvs(), public_key@);
                self.peers.set_value(public_key.clone(), updated);
                proof {
                    crate::strmap::lemma_get_props(peers_before.kvs(), public_key@);
                    assert forall|j: int|
                        0 <= j < self.peers.kvs().len() implies {
                        let e = #[trigger] self.peers.kvs()[j];
                        &&& e.1.public_key@ == e.0@
                        &&& e.1.allowed_ips@.len() > 0
                        &&& self.assigned_ips.contains_spec(e.1.allowed_ips@[0])
                    } by {
                        if j != pki {
                            assert(self.peers.kvs()[j] == peers_before.kvs()[j]);
                        } else {
                            assert(self.peers.kvs()[j].0@ == public_key@);
                            assert(peers_before.kvs()[j].1.public_key@ == public_key@);
                        }
                    }
                    assert forall|j: int|
                        0 <= j < self.assigned_ips.kvs().len() implies self.peers.contains_spec(
                        (#[trigger] self.assigned_ips.kvs()[j]).1@,
                    ) by {
                        let v = self.assigned_ips.kvs()[j].1;
                        assert(peers_before.contains_spec(v@));
                        if v@ != public_key@ {
                            assert(self.peers.get_spec(v@) == peers_before.get_spec(v@));
                        }
                    }
                }
                AddPeerStep::Updated(returned)
            },
            None => {
                match next_available_ipv4_address(&self.assigned_ips, WG_NETMASK, WG_FIRST_ADDR) {
                    Some(ip) => AddPeerStep::NeedsWgSet(ip),
                    None => AddPeerStep::Exhausted,
                }
            },
        }
    }

    /// Records a peer the daemon has just accepted: the new key under the
    /// reserved address. The caller runs `wg set` and the interface cycle
    /// between [`Vpn::add_or_update_peer`] and this.
    pub fn commit_new_peer(
        &mut self,
        public_key: String,
        preshared_key: Option<String>,
        remote_address: Option<Endpoint>,
        ip: u32,
    ) -> (p: RegisteredPeer)
        requires
            old(self).wf(),
            !old(self).peers.contains_spec(public_key@),
            !old(self).assigned_ips.contains_spec(ip),
        ensures
            final(self).wf(),
            final(self).interface_name == old(self).interface_name,
            final(self).interface_public_key == old(self).interface_public_key,
            p@.public_key == public_key@,
            p@.preshared_key == (match preshared_key {
                Some(k) => Some(k@),
                None => None::<Seq<char>>,
            }),
            p@.remote_address == remote_address,
            p@.allowed_ips =~= seq![ip],
            match final(self).peers.get_spec(public_key@) {
                Some(q) => q@ == p@,
                None => false,
            },
            forall|q: Seq<char>|
                q != public_key@ ==> final(self).peers.get_spec(q) == old(self).peers.get_spec(q),
            match final(self).assigned_ips.get_spec(ip) {
                Some(owner) => owner@ == public_key@,
                None => false,
            },
            forall|q: u32|
                q != ip ==> final(self).assigned_ips.get_spec(q) == old(
                    self,
                ).assigned_ips.get_spec(q),
            final(self).assigned_ips.kvs() == old(self).assigned_ips.kvs().push(
                (ip, final(self).assigned_ips.kvs().last().1),
            ),
    {
        let mut allowed_ips: Vec<u32> = Vec::new();
        allowed_ips.push(ip);
        let peer = RegisteredPeer {
            public_key: public_key.clone(),
            preshared_key,
            remote_address,
            allowed_ips,
        };
        let returned = peer.duplicate();
        let owner = public_key.clone();
        let ghost peers_before = self.peers;
        let ghost assigned_before = self.assigned_ips;
        self.peers.insert_new(public_key, peer);
        self.assigned_ips.insert_new(ip, owner);
        proof {
            assert forall|j: int|
                0 <= j < self.peers.kvs().len() implies {
                let e = #[trigger] self.peers.kvs()[j];
                &&& e.1.public_key@ == e.0@
                &&& e.1.allowed_ips@.len() > 0
                &&& self.assigned_ips.contains_spec(e.1.allowed_ips@[0])
            } by {
                if j < peers_before.kvs().len() {
                    assert(self.peers.kvs()[j] == peers_before.kvs()[j]);
                    let e = self.peers.kvs()[j];
                    assert(assigned_before.contains_spec(e.1.allowed_ips@[0]));
                    if e.1.allowed_ips@[0] != ip {
                        assert(self.assigned_ips.get_spec(e.1.allowed_ips@[0])
                            == assigned_before.get_spec(e.1.allowed_ips@[0]));
                    }
                } else {
                    assert(self.assigned_ips.get_spec(ip) is Some);
                }
            }
            assert forall|j: int|
                0 <= j < self.assigned_ips.kvs().len() implies self.peers.contains_spec(
                (#[trigger] self.assigned_ips.kvs()[j]).1@,
            ) by {
                let v = self.assigned_ips.kvs()[j].1;
                if j < assigned_before.kvs().len() {
                    assert(self.assigned_ips.kvs()[j] == assigned_before.kvs()[j]);
                    assert(peers_before.contains_spec(v@));
                    if v@ != public_key@ {
                        assert(self.peers.get_spec(v@) == peers_before.get_spec(v@));
                    }
                } else {
                    assert(self.peers.get_spec(v@) is Some);
                }
            }
        }
        returned
    }

    /// Re-reads the daemon's state from a fresh dump, then hands back the
    /// first recorded peer that routes `ip`. Fails on a malformed dump
    /// (state untouched) or when no peer routes `ip` (state refreshed).
    pub fn refresh_and_get_peer(&mut self, ip: u32, dump: &str) -> (r: Result<
        RegisteredPeer,
        GatewayError,
    >)
        requires
            old(self).wf(),
        ensures
            final(self).wf(),
            final(self).interface_name == old(self).interface_name,
            final(self).interface_public_key == old(self).interface_public_key,
            match r {
                Ok(p) => {
                    &&& parse_dump_spec(dump@) is Some
                    &&& peers_match(final(self).peers, parse_dump_spec(dump@).unwrap())
                    &&& match find_entry_by_ip(final(self).peers.kvs(), ip) {
                        Some(q) => q@ == p@,
                        None => false,
                    }
                },
                Err(GatewayError::BadDump) => parse_dump_spec(dump@) is None && *final(self)
                    == *old(self),
                Err(GatewayError::PeerNotRegistered) => {
                    &&& parse_dump_spec(dump@) is Some
                    &&& peers_match(final(self).peers, parse_dump_spec(dump@).unwrap())
                    &&& find_entry_by_ip(final(self).peers.kvs(), ip) is None
                },
                Err(_) => false,
            },
    {
        match self.get_registered_peers(dump) {
            Ok(()) => {},
            Err(e) => {
                return Err(e);
            },
        }
        let n = self.peers.len();
        let mut i: usize = 0;
        proof {
            assert(self.peers.kvs().skip(0) =~= self.peers.kvs());
        }
        while i < n
            invariant
                n == self.peers.kvs().len(),
                0 <= i <= n,
                self.wf(),
                self.interface_name == old(self).interface_name,
                self.interface_public_key == old(self).interface_public_key,
                parse_dump_spec(dump@) is Some,
                peers_match(self.peers, parse_dump_spec(dump@).unwrap()),
                find_entry_by_ip(self.peers.kvs(), ip) == find_entry_by_ip(
                    self.peers.kvs().skip(i as int),
                    ip,
                ),
            decreases n - i,
        {
            let candidate = self.peers.val_at(i);
            proof {
                assert(self.peers.kvs().skip(i as int)[0] == self.peers.kvs()[i as int]);
                assert(self.peers.kvs().skip(i as int).drop_first() =~= self.peers.kvs().skip(
                    i + 1,
                ));
            }
            if vec_contains_u32(&candidate.allowed_ips, ip) {
                return Ok(candidate.duplicate());
            }
            i = i + 1;
        }
        proof {
            assert(self.peers.kvs().skip(n as int) =~= Seq::<(String, RegisteredPeer)>::empty());
        }
        Err(GatewayError::PeerNotRegistered)
    }
}

/// Reads a dump and hands back the first peer in it that routes
/// `peer_vpn_ip`; the state of no controller is touched.
pub fn get_peer_config_by_vpn_ip(dump: &str, peer_vpn_ip: u32) -> (r: Result<
    RegisteredPeer,
    GatewayError,
>)
    ensures
        match r {
            Ok(p) => {
                &&& parse_dump_spec(dump@) is Some
                &&& match find_peer_by_ip(parse_dump_spec(dump@).unwrap(), peer_vpn_ip) {
                    Some(q) => q == p@,
                    None => false,
                }
            },
            Err(GatewayError::BadDump) => parse_dump_spec(dump@) is None,
            Err(GatewayError::PeerNotRegistered) => {
                &&& parse_dump_spec(dump@) is Some
                &&& find_peer_by_ip(parse_dump_spec(dump@).unwrap(), peer_vpn_ip) is None
            },
            Err(_) => false,
        },
{
    let peers = match parse_dump(dump) {
        Ok(peers) => peers,
        Err(e) => {
            return Err(e);
        },
    };
    let ghost views = parse_dump_spec(dump@).unwrap();
    let n = peers.len();
    let mut i: usize = 0;
    proof {
        assert(views.skip(0) =~= views);
    }
    while i < n
        invariant
            n == peers@.len(),
            peers@.len() == views.len(),
            parse_dump_spec(dump@) == Some(views),
            forall|j: int| 0 <= j < views.len() ==> peers@[j]@ == views[j],
            0 <= i <= n,
            find_peer_by_ip(views, peer_vpn_ip) == find_peer_by_ip(
                views.skip(i as int),
                peer_vpn_ip,
            ),
        decreases n - i,
    {
        proof {
            assert(views.skip(i as int)[0] == views[i as int]);
            assert(views.skip(i as int).drop_first() =~= views.skip(i + 1));
        }
        if vec_contains_u32(&peers[i].allowed_ips, peer_vpn_ip) {
            return Ok(peers[i].duplicate());
        }
        i = i + 1;
    }
    proof {
        assert(views.skip(n as int) =~= Seq::<PeerView>::empty());
    }
    Err(GatewayError::PeerNotRegistered)
}

impl Vpn {
    /// The daemon command that reserves `ip` for a peer:
    /// `wg set <interface> peer <public-key> allowed-ips <address>`.
    pub fn wg_set_peer_args(&self, public_key: &String, ip: u32) -> (r: Vec<String>)
        ensures
            r@.len() == 6,
            r@[0]@ == "set"@,
            r@[1]@ == self.interface_name@,
            r@[2]@ == "peer"@,
            r@[3]@ == public_key@,
            r@[4]@ == "allowed-ips"@,
            r@[5]@ == crate::ip::ipv4_of(ip),
    {
        let mut args: Vec<String> = Vec::new();
        args.push("set".to_owned());
        args.push(self.interface_name.clone());
        args.push("peer".to_owned());
        args.push(public_key.clone());
        args.push("allowed-ips".to_owned());
        args.push(crate::ip::ipv4_to_string(ip));
        args
    }

    /// The `wg-quick down <interface>` half of an interface cycle.
    pub fn wg_quick_down_args(&self) -> (r: Vec<String>)
        ensures
            r@.len() == 2,
            r@[0]@ == "down"@,
            r@[1]@ == self.interface_name@,
    {
        let mut args: Vec<String> = Vec::new();
        args.push("down".to_owned());
        args.push(self.interface_name.clone());
        args
    }

    /// The `wg-quick up <interface>` half of an interface cycle.
    pub fn wg_quick_up_args(&self) -> (r: Vec<String>)
        ensures
            r@.len() == 2,
            r@[0]@ == "up"@,
            r@[1]@ == self.interface_name@,
    {
        let mut args: Vec<String> = Vec::new();
        args.push("up".to_owned());
        args.push(self.interface_name.clone());
        args
    }

    /// The `wg show <interface> dump` command that refreshes the peers.
    pub fn wg_show_dump_args(&self) -> (r: Vec<String>)
        ensures
            r@.len() == 3,
            r@[0]@ == "show"@,
            r@[1]@ == self.interface_name@,
            r@[2]@ == "dump"@,
    {
        let mut args: Vec<String> = Vec::new();
        args.push("show".to_owned());
        args.push(self.interface_name.clone());
        args.push("dump".to_owned());
        args
    }
}

/// The interface name as `wg show interfaces` reports it: the output, trimmed.
/// This system runs a single interface, so the whole answer is the name.
pub fn get_interface_name(output: &str) -> (r: String)
    ensures
        r@ == trim_spec(output@),
{
    trim(output)
}

/// The interface's public key as `wg show <interface> public-key` reports it:
/// the output, trimmed.
pub fn get_public_key(output: &str) -> (r: String)
    ensures
        r@ == trim_spec(output@),
{
    trim(output)
}

} // verus!
