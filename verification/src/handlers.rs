//! The gateway's HTTP decisions: registering a peer, answering its info, and
//! classifying every other request into one of the two forwarding directions.
//!
//! The HTTP edge hands these functions plain values — the remote socket, the
//! headers, the body — and performs whatever step they ask for: running a
//! daemon command, fetching a dump, or streaming to the upstream they name.

use vstd::prelude::*;

use crate::api::{ApiError, PeerInfoResponseBody, RegisterPeerRequestBody, RegisterPeerResponseBody};
use crate::errors::{message_spec, GatewayError};
use crate::ip::{ipv4_of, ipv4_to_string, lemma_alloc_above_assigned, Endpoint};
use crate::proxy_db::ProxyDb;
use crate::vpn::{find_entry_by_ip, peers_match, AddPeerStep};

verus! {

/// The code point of `c` with an ASCII capital folded to its small form.
pub open spec fn lower_cp(c: char) -> int {
    if 'A' <= c && c <= 'Z' {
        c as u32 + 32
    } else {
        c as u32 as int
    }
}

/// ASCII-case-insensitive equality of two texts.
pub open spec fn ci_eq(a: Seq<char>, b: Seq<char>) -> bool {
    a.len() == b.len() && forall|i: int| 0 <= i < a.len() ==> lower_cp(a[i]) == lower_cp(b[i])
}

/// The headers as text pairs.
pub open spec fn header_views(hs: Seq<(String, String)>) -> Seq<(Seq<char>, Seq<char>)> {
    hs.map_values(|h: (String, String)| (h.0@, h.1@))
}

/// The value of the first header whose name matches, ASCII-case-insensitively.
pub open spec fn header_lookup(hs: Seq<(Seq<char>, Seq<char>)>, name: Seq<char>) -> Option<
    Seq<char>,
>
    decreases hs.len(),
{
    if hs.len() == 0 {
        None
    } else if ci_eq(hs[0].0, name) {
        Some(hs[0].1)
    } else {
        header_lookup(hs.drop_first(), name)
    }
}

/// ASCII-case-insensitive comparison, as [`ci_eq`] says.
pub fn chars_ci_eq(a: &str, b: &str) -> (r: bool)
    ensures
        r == ci_eq(a@, b@),
{
    let na = a.unicode_len();
    let nb = b.unicode_len();
    if na != nb {
        return false;
    }
    let mut i: usize = 0;
    while i < na
        invariant
            na == a@.len(),
            na == b@.len(),
            0 <= i <= na,
            forall|j: int| 0 <= j < i ==> lower_cp(a@[j]) == lower_cp(b@[j]),
        decreases na - i,
    {
        let ca = a.get_char(i) as u32;
        let cb = b.get_char(i) as u32;
        let fa = if 65 <= ca && ca <= 90 {
            ca + 32
        } else {
            ca
        };
        let fb = if 65 <= cb && cb <= 90 {
            cb + 32
        } else {
            cb
        };
        if fa != fb {
            return false;
        }
        i = i + 1;
    }
    true
}

/// The value of the first header matching `name`, if any.
pub fn get_header(headers: &Vec<(String, String)>, name: &str) -> (r: Option<String>)
    ensures
        match r {
            Some(v) => header_lookup(header_views(headers@), name@) == Some(v@),
            None => header_lookup(header_views(headers@), name@) is None,
        },
{
    let ghost hs = header_views(headers@);
    let n = headers.len();
    let mut i: usize = 0;
    proof {
        assert(hs.skip(0) =~= hs);
    }
    while i < n
        invariant
            hs == header_views(headers@),
            n == headers@.len(),
            n == hs.len(),
            0 <= i <= n,
            header_lookup(hs, name@) == header_lookup(hs.skip(i as int), name@),
        decreases n - i,
    {
        proof {
            assert(hs.skip(i as int)[0] == hs[i as int]);
            assert(hs.skip(i as int).drop_first() =~= hs.skip(i + 1));
            assert(hs[i as int] == (headers@[i as int].0@, headers@[i as int].1@));
        }
        if chars_ci_eq(headers[i].0.as_str(), name) {
            return Some(headers[i].1.clone());
        }
        i = i + 1;
    }
    proof {
        assert(hs.skip(n as int) =~= Seq::<(Seq<char>, Seq<char>)>::empty());
    }
    None
}

/// Where a request came from, as far as the HTTP edge could tell.
#[derive(Clone, Copy, Debug, PartialEq, Eq, Structural)]
pub enum RemoteInfo {
    /// The edge has no remote socket for the request.
    Missing,
    /// The request came over IPv6, which the gateway does not serve.
    V6,
    /// The request came from this IPv4 socket.
    V4(Endpoint),
}

/// A forwarding decision: where to stream the request, with which headers.
#[derive(Debug)]
pub struct ForwardPlan {
    /// The upstream URL the request goes to.
    pub upstream: String,
    /// The headers to send, after any rewriting.
    pub headers: Vec<(String, String)>,
}

/// What the classifier asks of the HTTP edge.
#[derive(Debug)]
pub enum ForwardStep {
    /// Stream the request to the plan's upstream with the plan's headers.
    Proxy(ForwardPlan),
    /// The sender is not in the directory: fetch a fresh dump and classify
    /// again with [`forward_request_with_dump`], for this VPN address.
    NeedsDump(u32),
    /// Answer the error instead of forwarding.
    Rejected(ApiError),
}

/// The port column of a backend-to-peer plan: the named port, or `8888`.
pub open spec fn forward_port(hs: Seq<(Seq<char>, Seq<char>)>) -> Seq<char> {
    match header_lookup(hs, "x-forward-to-port"@) {
        Some(p) => p,
        None => "8888"@,
    }
}

/// The upstream of a backend-to-peer plan.
pub open spec fn peer_upstream(ip: u32, hs: Seq<(Seq<char>, Seq<char>)>) -> Seq<char> {
    "http://"@ + ipv4_of(ip) + ":"@ + forward_port(hs) + "/"@
}

/// Classifies one inbound request, as the spec's table says.
///
/// `X-Forward-To-Peer` takes precedence over every other hint: when it is
/// present the upstream comes from the directory lookup of the named peer —
/// never from `X-Destination-Url` — and the headers pass through unchanged.
/// Without it, a sender known to the directory is forwarded to its
/// `X-Destination-Url` with `X-Proxied-For` and `X-Peer-Id` added; a sender
/// unknown to the directory needs a fresh dump; anything else is rejected.
pub fn forward_request(db: &ProxyDb, remote: RemoteInfo, request_headers: &Vec<(String, String)>)
    -> (r: ForwardStep)
    ensures
        ({
            let hs = header_views(request_headers@);
            match header_lookup(hs, "x-forward-to-peer"@) {
                Some(id) => match db.external_mapping.get_spec(id) {
                    Some(ip) => match r {
                        ForwardStep::Proxy(plan) => plan.upstream@ == peer_upstream(ip, hs)
                            && plan.upstream@.len() > 0 && header_views(plan.headers@) == hs,
                        _ => false,
                    },
                    None => match r {
                        ForwardStep::Rejected(e) => e.message@ == message_spec(
                            GatewayError::PeerNotRegistered,
                        ),
                        _ => false,
                    },
                },
                None => match remote {
                    RemoteInfo::V4(ep) => match db.internal_mapping.get_spec(ep.ip) {
                        Some(info) => match header_lookup(hs, "x-destination-url"@) {
                            // an empty destination is an empty computed
                            // upstream: the peer-not-registered error
                            Some(url) => if url.len() > 0 {
                                match r {
                                    ForwardStep::Proxy(plan) => plan.upstream@ == url
                                        && header_views(plan.headers@) == hs + seq![
                                        ("X-Proxied-For"@, info.public_ip@),
                                        ("X-Peer-Id"@, info.id@),
                                    ],
                                    _ => false,
                                }
                            } else {
                                match r {
                                    ForwardStep::Rejected(e) => e.message@ == message_spec(
                                        GatewayError::PeerNotRegistered,
                                    ),
                                    _ => false,
                                }
                            },
                            None => match r {
                                ForwardStep::Rejected(e) => e.message@ == message_spec(
                                    GatewayError::PeerNotRegistered,
                                ),
                                _ => false,
                            },
                        },
                        None => r == ForwardStep::NeedsDump(ep.ip),
                    },
                    _ => match r {
                        ForwardStep::Rejected(e) => e.message@ == message_spec(
                            GatewayError::PeerNotRegistered,
                        ),
                        _ => false,
                    },
                },
            }
        }),
{
    let ghost hs = header_views(request_headers@);
    match get_header(request_headers, "x-forward-to-peer") {
        Some(peer_id) => {
            proof {
                reveal_strlit("x-forward-to-peer");
            }
            match db.get_peer_internal_ip(&peer_id) {
                Ok(peer_internal_ip) => {
                    let port = match get_header(request_headers, "x-forward-to-port") {
                        Some(port) => port,
                        None => {
                            let p: String = "8888".to_owned();
                            proof {
                                reveal_strlit("x-forward-to-port");
                            }
                            p
                        },
                    };
                    proof {
                        reveal_strlit("x-forward-to-port");
                    }
                    let mut upstream: String = "http://".to_owned();
                    upstream.append(ipv4_to_string(peer_internal_ip).as_str());
                    upstream.append(":");
                    upstream.append(port.as_str());
                    upstream.append("/");
                    proof {
                        reveal_strlit("http://");
                        reveal_strlit(":");
                        reveal_strlit("/");
                        assert(upstream@ =~= peer_upstream(peer_internal_ip, hs));
                    }
                    let headers = clone_headers(request_headers);
                    ForwardStep::Proxy(ForwardPlan { upstream, headers })
                },
                Err(e) => ForwardStep::Rejected(ApiError::from_error(&e)),
            }
        },
        None => {
            match remote {
                RemoteInfo::V4(ep) => {
                    match db.get_peer_info(ep.ip) {
                        Ok(peer_info) => {
                            let mut headers = clone_headers(request_headers);
                            headers.push(("X-Proxied-For".to_owned(), peer_info.public_ip.clone()));
                            headers.push(("X-Peer-Id".to_owned(), peer_info.id.clone()));
                            proof {
                                assert(header_views(headers@) =~= hs + seq![
                                    ("X-Proxied-For"@, peer_info.public_ip@),
                                    ("X-Peer-Id"@, peer_info.id@),
                                ]);
                            }
                            match get_header(request_headers, "x-destination-url") {
                                Some(destination_url) => {
                                    proof {
                                        reveal_strlit("x-destination-url");
                                    }
                                    if destination_url.as_str().is_empty() {
                                        return ForwardStep::Rejected(
                                            ApiError::from_error(&GatewayError::PeerNotRegistered),
                                        );
                                    }
                                    ForwardStep::Proxy(
                                        ForwardPlan { upstream: destination_url, headers },
                                    )
                                },
                                None => {
                                    proof {
                                        reveal_strlit("x-destination-url");
                                    }
                                    ForwardStep::Rejected(
                                        ApiError::from_error(&GatewayError::PeerNotRegistered),
                                    )
                                },
                            }
                        },
                        Err(_) => ForwardStep::NeedsDump(ep.ip),
                    }
                },
                _ => ForwardStep::Rejected(ApiError::from_error(&GatewayError::PeerNotRegistered)),
            }
        },
    }
}

/// A copy of the headers with the same text pairs.
fn clone_headers(headers: &Vec<(String, String)>) -> (r: Vec<(String, String)>)
    ensures
        header_views(r@) == header_views(headers@),
        r@.len() == headers@.len(),
{
    let n = headers.len();
    let mut out: Vec<(String, String)> = Vec::new();
    let mut i: usize = 0;
    proof {
        assert(header_views(out@) =~= header_views(headers@.take(0)));
    }
    while i < n
        invariant
            n == headers@.len(),
            0 <= i <= n,
            out@.len() == i,
            header_views(out@) == header_views(headers@.take(i as int)),
        decreases n - i,
    {
        let ghost out_before = out@;
        out.push((headers[i].0.clone(), headers[i].1.clone()));
        proof {
            assert forall|j: int|
                0 <= j < i + 1 implies header_views(out@)[j] == header_views(
                headers@.take(i + 1),
            )[j] by {
                if j < i {
                    assert(out@[j] == out_before[j]);
                    assert(header_views(out_before)[j] == header_views(headers@.take(i as int))[j]);
                    assert(header_views(out_before)[j] == (out_before[j].0@, out_before[j].1@));
                    assert(headers@.take(i as int)[j] == headers@[j]);
                    assert(headers@.take(i + 1)[j] == headers@[j]);
                } else {
                    assert(out@[j] == out@.last());
                    assert(out@.last().0@ == headers@[i as int].0@);
                    assert(out@.last().1@ == headers@[i as int].1@);
                    assert(headers@.take(i + 1)[j] == headers@[i as int]);
                }
                assert(header_views(out@)[j] == (out@[j].0@, out@[j].1@));
                assert(header_views(headers@.take(i + 1))[j] == (
                    headers@.take(i + 1)[j].0@,
                    headers@.take(i + 1)[j].1@,
                ));
            }
            assert(header_views(out@) =~= header_views(headers@.take(i + 1)));
        }
        i = i + 1;
    }
    proof {
        assert(headers@.take(n as int) =~= headers@);
    }
    out
}

/// The degraded peer-to-backend path, once a fresh dump is in hand: the
/// sender was not in the directory, so the dump replaces the controller's
/// view and the request goes to `http://<public-ip>` of the dump peer that
/// routes the sender's address, with the legacy `X-Forwarded-For` header
/// added. Every outcome is a function of the directory and the dump: a
/// malformed dump fails with its own wording and changes nothing; otherwise
/// the plan is owed exactly when a refreshed peer routing the address has an
/// endpoint, and the peer-not-registered error answers the rest.
pub fn forward_request_with_dump(
    db: &mut ProxyDb,
    vpn_ip: u32,
    request_headers: &Vec<(String, String)>,
    dump: &str,
) -> (r: Result<ForwardPlan, ApiError>)
    requires
        old(db).wf(),
    ensures
        final(db).wf(),
        final(db).internal_mapping == old(db).internal_mapping,
        final(db).external_mapping == old(db).external_mapping,
        crate::dump::parse_dump_spec(dump@) is None ==> *final(db) == *old(db),
        crate::dump::parse_dump_spec(dump@) is Some ==> peers_match(
            final(db).vpn.peers,
            crate::dump::parse_dump_spec(dump@).unwrap(),
        ),
        match r {
            Ok(plan) => {
                &&& crate::dump::parse_dump_spec(dump@) is Some
                &&& match find_entry_by_ip(final(db).vpn.peers.kvs(), vpn_ip) {
                    Some(p) => match p@.remote_address {
                        Some(ep) => plan.upstream@ == "http://"@ + ipv4_of(ep.ip)
                            && plan.upstream@.len() > 0 && header_views(plan.headers@)
                            == header_views(request_headers@) + seq![
                            ("X-Forwarded-For"@, ipv4_of(ep.ip)),
                        ],
                        None => false,
                    },
                    None => false,
                }
            },
            Err(e) => if crate::dump::parse_dump_spec(dump@) is None {
                e.message@ == message_spec(GatewayError::BadDump)
            } else {
                e.message@ == message_spec(GatewayError::PeerNotRegistered) && match
                    find_entry_by_ip(final(db).vpn.peers.kvs(), vpn_ip) {
                    Some(p) => p@.remote_address is None,
                    None => true,
                }
            },
        },
{
    match db.get_peer_public_ip_with_dump(vpn_ip, dump) {
        Ok(public_ip) => {
            let mut upstream: String = "http://".to_owned();
            upstream.append(public_ip.as_str());
            proof {
                reveal_strlit("http://");
            }
            let mut headers = clone_headers(request_headers);
            headers.push(("X-Forwarded-For".to_owned(), public_ip));
            proof {
                assert(header_views(headers@) =~= header_views(request_headers@) + seq![
                    ("X-Forwarded-For"@, headers@.last().1@),
                ]);
            }
            Ok(ForwardPlan { upstream, headers })
        },
        Err(GatewayError::BadDump) => Err(ApiError::from_error(&GatewayError::BadDump)),
        Err(_) => Err(ApiError::from_error(&GatewayError::PeerNotRegistered)),
    }
}

/// What the directory already answers for a public key: the peer's VPN
/// address and identity, when the controller records the key and the
/// directory has a row at its address.
pub open spec fn known_registration(db: ProxyDb, pk: Seq<char>) -> Option<(u32, Seq<char>)> {
    match db.vpn.peers.get_spec(pk) {
        Some(p) => if p.allowed_ips@.len() > 0 {
            match db.internal_mapping.get_spec(p.allowed_ips@[0]) {
                Some(info) => Some((p.allowed_ips@[0], info.id@)),
                None => None,
            }
        } else {
            None
        },
        None => None,
    }
}

/// Registration idempotence. A completed registration leaves
/// `known_registration(db, pk) == Some((ip, id))` — [`register_commit`] and
/// the in-place branch of [`handle_register_to_vpn`] both end there. This
/// lemma discharges the guard of that contract's known-key branch: in such a
/// state the controller records `pk`, so the contract of a further
/// [`handle_register_to_vpn`] call for `pk` from an IPv4 sender owes the
/// `Done` answer — never `NeedsWgSet`, so no second `wg set` and no second
/// interface cycle — and pins its `assigned_ip` to `ipv4_of(ip)` and its
/// `assigned_id` to `id`.
pub proof fn lemma_registration_idempotent(db: &ProxyDb, pk: Seq<char>, ip: u32, id: Seq<char>)
    requires
        known_registration(*db, pk) == Some((ip, id)),
    ensures
        db.vpn.peers.contains_spec(pk),
{
}

/// What one registration call asks of the HTTP edge.
#[derive(Debug)]
pub enum RegisterStep {
    /// Answer this body; no daemon command is needed.
    Done(RegisterPeerResponseBody),
    /// The peer is new and this address was reserved: run
    /// `wg set <if> peer <key> allowed-ips <addr>`, cycle the interface, and
    /// complete with [`register_commit`].
    NeedsWgSet(u32),
    /// Answer the error.
    Rejected(ApiError),
}

/// One registration call. A key the controller already records is answered
/// in place — its stored address, its stored identity where the directory
/// has one, no daemon command; registration is idempotent. A new key has the
/// next free address reserved for it and the daemon must accept it first;
/// an exhausted network, a missing remote socket and an IPv6 one are
/// rejected.
pub fn handle_register_to_vpn(
    db: &mut ProxyDb,
    remote: RemoteInfo,
    request_body: &RegisterPeerRequestBody,
    proxy_address: &String,
) -> (r: RegisterStep)
    requires
        old(db).wf(),
    ensures
        final(db).wf(),
        final(db).vpn.assigned_ips == old(db).vpn.assigned_ips,
        final(db).vpn.interface_name == old(db).vpn.interface_name,
        final(db).vpn.interface_public_key == old(db).vpn.interface_public_key,
        match remote {
            RemoteInfo::Missing => (match r {
                RegisterStep::Rejected(e) => e.message@ == message_spec(
                    GatewayError::NoRemoteAddress,
                ),
                _ => false,
            }) && *final(db) == *old(db),
            RemoteInfo::V6 => (match r {
                RegisterStep::Rejected(e) => e.message@ == message_spec(GatewayError::Ipv6Remote),
                _ => false,
            }) && *final(db) == *old(db),
            RemoteInfo::V4(ep) => if old(db).vpn.peers.contains_spec(request_body.public_key@) {
                // a recorded key is answered in place; only where the
                // directory has no row yet can the fresh-identity mint
                // collide and reject
                match r {
                    RegisterStep::Done(resp) => {
                        &&& resp.server_public_key == old(db).vpn.interface_public_key
                        &&& resp.proxy_address == *proxy_address
                        &&& match known_registration(*final(db), request_body.public_key@) {
                            Some((ip2, id2)) => resp.assigned_ip@ == ipv4_of(ip2)
                                && resp.assigned_id@ == id2,
                            None => false,
                        }
                        &&& match known_registration(*old(db), request_body.public_key@) {
                            Some((ip, id)) => {
                                &&& resp.assigned_ip@ == ipv4_of(ip)
                                &&& resp.assigned_id@ == id
                                &&& known_registration(*final(db), request_body.public_key@)
                                    == Some((ip, id))
                                &&& final(db).internal_mapping == old(db).internal_mapping
                                &&& final(db).external_mapping == old(db).external_mapping
                            },
                            None => true,
                        }
                    },
                    RegisterStep::Rejected(e) => known_registration(
                        *old(db),
                        request_body.public_key@,
                    ) is None && e.message@ == message_spec(GatewayError::IdCollision),
                    RegisterStep::NeedsWgSet(_) => false,
                }
            } else {
                match crate::ip::next_available_spec(
                    old(db).vpn.assigned_ips.kvs(),
                    crate::ip::WG_NETMASK,
                    crate::ip::WG_FIRST_ADDR,
                ) {
                    Some(ip) => r == RegisterStep::NeedsWgSet(ip) && *final(db) == *old(db),
                    None => (match r {
                        RegisterStep::Rejected(e) => e.message@ == message_spec(
                            GatewayError::NoAvailableIp,
                        ),
                        _ => false,
                    }) && *final(db) == *old(db),
                }
            },
        },
{
    let ep = match remote {
        RemoteInfo::Missing => {
            return RegisterStep::Rejected(ApiError::from_error(&GatewayError::NoRemoteAddress));
        },
        RemoteInfo::V6 => {
            return RegisterStep::Rejected(ApiError::from_error(&GatewayError::Ipv6Remote));
        },
        RemoteInfo::V4(ep) => ep,
    };
    let step = db.vpn.add_or_update_peer(&request_body.public_key, Some(ep));
    match step {
        AddPeerStep::Updated(peer) => {
            proof {
                // the stored peer routes at least one address (controller invariant)
                crate::strmap::lemma_get_props(
                    old(db).vpn.peers.kvs(),
                    request_body.public_key@,
                );
            }
            let assigned = peer.allowed_ips[0];
            match db.insert_peer(ipv4_to_string(ep.ip), assigned) {
                Ok(id) => {
                    proof {
                        match known_registration(*old(db), request_body.public_key@) {
                            Some((ip0, id0)) => {
                                assert(assigned == ip0);
                                assert(db.internal_mapping.get_spec(ip0) == old(
                                    db,
                                ).internal_mapping.get_spec(ip0));
                            },
                            None => {},
                        }
                    }
                    let response = RegisterPeerResponseBody {
                        server_public_key: db.vpn.interface_public_key.clone(),
                        assigned_ip: ipv4_to_string(assigned),
                        assigned_id: id,
                        proxy_address: proxy_address.clone(),
                    };
                    RegisterStep::Done(response)
                },
                Err(e) => RegisterStep::Rejected(ApiError::from_error(&e)),
            }
        },
        AddPeerStep::NeedsWgSet(ip) => RegisterStep::NeedsWgSet(ip),
        AddPeerStep::Exhausted => RegisterStep::Rejected(
            ApiError::from_error(&GatewayError::NoAvailableIp),
        ),
    }
}

/// Completes a two-step registration, after the daemon accepted the reserved
/// address: records the peer under it, files it in the directory, and builds
/// the answer. Every rejection is tied to its cause and records nothing: the
/// key was taken meanwhile or the reserved address is no longer the next
/// free one (stale), the network is exhausted, or the fresh-identity mint
/// collided; the answer is owed in every other case.
pub fn register_commit(
    db: &mut ProxyDb,
    ep: Endpoint,
    request_body: &RegisterPeerRequestBody,
    ip: u32,
    proxy_address: &String,
) -> (r: Result<RegisterPeerResponseBody, ApiError>)
    requires
        old(db).wf(),
    ensures
        final(db).wf(),
        final(db).vpn.interface_name == old(db).vpn.interface_name,
        final(db).vpn.interface_public_key == old(db).vpn.interface_public_key,
        match r {
            Ok(resp) => {
                &&& !old(db).vpn.peers.contains_spec(request_body.public_key@)
                &&& crate::ip::next_available_spec(
                    old(db).vpn.assigned_ips.kvs(),
                    crate::ip::WG_NETMASK,
                    crate::ip::WG_FIRST_ADDR,
                ) == Some(ip)
                &&& resp.assigned_ip@ == ipv4_of(ip)
                &&& resp.server_public_key == old(db).vpn.interface_public_key
                &&& resp.proxy_address == *proxy_address
                &&& known_registration(*final(db), request_body.public_key@) == Some(
                    (ip, resp.assigned_id@),
                )
            },
            Err(e) => *final(db) == *old(db) && (if old(db).vpn.peers.contains_spec(
                request_body.public_key@,
            ) {
                e.message@ == message_spec(GatewayError::StaleRegistration)
            } else {
                match crate::ip::next_available_spec(
                    old(db).vpn.assigned_ips.kvs(),
                    crate::ip::WG_NETMASK,
                    crate::ip::WG_FIRST_ADDR,
                ) {
                    None => e.message@ == message_spec(GatewayError::NoAvailableIp),
                    Some(planned) => if planned != ip {
                        e.message@ == message_spec(GatewayError::StaleRegistration)
                    } else {
                        e.message@ == message_spec(GatewayError::IdCollision)
                    },
                }
            }),
        },
{
    if db.vpn.peers.contains(&request_body.public_key) {
        return Err(ApiError::from_error(&GatewayError::StaleRegistration));
    }
    let planned = match crate::ip::next_available_ipv4_address(
        &db.vpn.assigned_ips,
        crate::ip::WG_NETMASK,
        crate::ip::WG_FIRST_ADDR,
    ) {
        Some(planned) => planned,
        None => {
            return Err(ApiError::from_error(&GatewayError::NoAvailableIp));
        },
    };
    if planned != ip {
        return Err(ApiError::from_error(&GatewayError::StaleRegistration));
    }
    // the directory row is filed first, so a mint collision records nothing
    let id = match db.insert_peer(ipv4_to_string(ep.ip), ip) {
        Ok(id) => id,
        Err(e) => {
            return Err(ApiError::from_error(&e));
        },
    };
    proof {
        lemma_alloc_above_assigned(
            db.vpn.assigned_ips.kvs(),
            crate::ip::WG_NETMASK,
            crate::ip::WG_FIRST_ADDR,
        );
        crate::ipmap::lemma_get_props(db.vpn.assigned_ips.kvs(), ip);
        assert(!db.vpn.assigned_ips.contains_spec(ip));
    }
    let preshared = match &request_body.preshared_key {
        Some(k) => Some(k.clone()),
        None => None,
    };
    let _recorded = db.vpn.commit_new_peer(request_body.public_key.clone(), preshared, Some(ep), ip);
    let response = RegisterPeerResponseBody {
        server_public_key: db.vpn.interface_public_key.clone(),
        assigned_ip: ipv4_to_string(ip),
        assigned_id: id,
        proxy_address: proxy_address.clone(),
    };
    Ok(response)
}

/// Identifies the sender of a peer-info request: its VPN address, from the
/// remote socket of the tunnel. A sender without one, an IPv6 one, and one
/// the directory does not know are rejected; for a known one the edge must
/// fetch a fresh dump and finish with [`peer_info_with_dump`].
pub fn handle_peer_info(db: &ProxyDb, remote: RemoteInfo) -> (r: Result<u32, ApiError>)
    ensures
        match r {
            Ok(ip) => remote == RemoteInfo::V4(
                Endpoint { ip, port: remote->V4_0.port },
            ) && db.internal_mapping.contains_spec(ip),
            Err(e) => {
                &&& (remote is Missing ==> e.message@ == message_spec(
                    GatewayError::NoRemoteAddress,
                ))
                &&& (remote is V6 ==> e.message@ == message_spec(GatewayError::Ipv6Remote))
                &&& (remote is V4 ==> !db.internal_mapping.contains_spec(remote->V4_0.ip)
                    && e.message@ == message_spec(GatewayError::PeerNotRegistered))
            },
        },
{
    match remote {
        RemoteInfo::Missing => Err(ApiError::from_error(&GatewayError::NoRemoteAddress)),
        RemoteInfo::V6 => Err(ApiError::from_error(&GatewayError::Ipv6Remote)),
        RemoteInfo::V4(ep) => {
            if db.internal_mapping.contains(ep.ip) {
                Ok(ep.ip)
            } else {
                Err(ApiError::from_error(&GatewayError::PeerNotRegistered))
            }
        },
    }
}

/// Builds the peer-info answer once a fresh dump is in hand: the directory
/// row at the sender's VPN address, its public key read back from the
/// daemon's view, and the gateway's own address.
pub fn peer_info_with_dump(
    db: &mut ProxyDb,
    vpn_ip: u32,
    dump: &str,
    proxy_address: &String,
) -> (r: Result<PeerInfoResponseBody, ApiError>)
    requires
        old(db).wf(),
    ensures
        final(db).wf(),
        final(db).internal_mapping == old(db).internal_mapping,
        final(db).external_mapping == old(db).external_mapping,
        match r {
            Ok(resp) => {
                &&& crate::dump::parse_dump_spec(dump@) is Some
                &&& peers_match(
                    final(db).vpn.peers,
                    crate::dump::parse_dump_spec(dump@).unwrap(),
                )
                &&& match old(db).internal_mapping.get_spec(vpn_ip) {
                    Some(info) => {
                        &&& resp.id@ == info.id@
                        &&& resp.internal_ip@ == ipv4_of(vpn_ip)
                        &&& resp.public_ip@ == info.public_ip@
                        &&& resp.proxy_address == *proxy_address
                        &&& match find_entry_by_ip(final(db).vpn.peers.kvs(), vpn_ip) {
                            Some(p) => resp.public_key@ == p@.public_key,
                            None => false,
                        }
                    },
                    None => false,
                }
            },
            Err(e) => if old(db).internal_mapping.get_spec(vpn_ip) is None {
                // no directory row: nothing is touched
                e.message@ == message_spec(GatewayError::PeerNotRegistered) && *final(db) == *old(
                    db,
                )
            } else if crate::dump::parse_dump_spec(dump@) is None {
                // the dump did not read: nothing is touched
                e.message@ == message_spec(GatewayError::BadDump) && *final(db) == *old(db)
            } else {
                // refreshed, but no daemon peer routes the address
                &&& e.message@ == message_spec(GatewayError::PeerNotRegistered)
                &&& peers_match(
                    final(db).vpn.peers,
                    crate::dump::parse_dump_spec(dump@).unwrap(),
                )
                &&& find_entry_by_ip(final(db).vpn.peers.kvs(), vpn_ip) is None
            },
        },
{
    let info = match db.get_peer_info(vpn_ip) {
        Ok(info) => info,
        Err(e) => {
            return Err(ApiError::from_error(&e));
        },
    };
    let vpn_peer = match db.vpn.refresh_and_get_peer(vpn_ip, dump) {
        Ok(peer) => peer,
        Err(e) => {
            return Err(ApiError::from_error(&e));
        },
    };
    Ok(
        PeerInfoResponseBody {
            id: info.id,
            internal_ip: ipv4_to_string(vpn_ip),
            public_ip: info.public_ip,
            public_key: vpn_peer.public_key,
            proxy_address: proxy_address.clone(),
        },
    )
}

} // verus!
