use wg_gateway::api::RegisterPeerRequestBody;
use wg_gateway::command::{check_vpn, interpret_command, CommandError};
use wg_gateway::dump::{parse_dump, parse_line, render_dump, render_peer_line};
use wg_gateway::errors::GatewayError;
use wg_gateway::handlers::{
    forward_request, forward_request_with_dump, get_header, handle_peer_info,
    handle_register_to_vpn, peer_info_with_dump, register_commit, ForwardStep, RegisterStep,
    RemoteInfo,
};
use wg_gateway::ip::{
    endpoint_to_string, ipv4_to_string, next_available_ipv4_address, next_ipv4_address,
    parse_endpoint, parse_ipv4, Endpoint, WG_FIRST_ADDR, WG_NETMASK,
};
use wg_gateway::ipmap::IpMap;
use wg_gateway::proxy_db::ProxyDb;
use wg_gateway::text::{split, trim};
use wg_gateway::vpn::{get_interface_name, get_public_key, get_peer_config_by_vpn_ip, AddPeerStep, Vpn};

const IP_A: u32 = 0x0a0d0d02; // 10.13.13.2
const IP_B: u32 = 0x0a0d0d03; // 10.13.13.3

fn fresh_db() -> ProxyDb {
    let vpn = Vpn::new(" wg0\n", "SERVER_PK\n", "wg0 interface line").unwrap();
    ProxyDb::new(vpn).unwrap()
}

fn register(db: &mut ProxyDb, key: &str, ip: u32, port: u16) -> (String, String) {
    let body = RegisterPeerRequestBody {
        public_key: key.to_string(),
        preshared_key: None,
    };
    let remote = RemoteInfo::V4(Endpoint { ip, port });
    let proxy_address = "10.13.13.1:8081".to_string();
    match handle_register_to_vpn(db, remote, &body, &proxy_address) {
        RegisterStep::NeedsWgSet(assigned) => {
            // the HTTP edge would run `wg set` and the interface cycle here
            let resp = register_commit(db, Endpoint { ip, port }, &body, assigned, &proxy_address)
                .unwrap();
            (resp.assigned_ip, resp.assigned_id)
        }
        RegisterStep::Done(resp) => (resp.assigned_ip, resp.assigned_id),
        RegisterStep::Rejected(e) => panic!("rejected: {}", e.message),
    }
}

#[test]
fn trim_strips_ascii_whitespace() {
    assert_eq!(trim(" \twg0\r\n").as_str(), "wg0");
    assert_eq!(trim("").as_str(), "");
    assert_eq!(trim("  \n").as_str(), "");
    assert_eq!(trim("a b").as_str(), "a b");
}

#[test]
fn split_matches_std_semantics() {
    let pieces = split("a\tb\t\tc", '\t');
    let got: Vec<&str> = pieces.iter().map(|s| s.as_str()).collect();
    assert_eq!(got, vec!["a", "b", "", "c"]);
    let single = split("", ',');
    assert_eq!(single.len(), 1);
    assert_eq!(single[0].as_str(), "");
}

#[test]
fn ipv4_text_round_trip() {
    assert_eq!(ipv4_to_string(IP_A).as_str(), "10.13.13.2");
    assert_eq!(parse_ipv4("10.13.13.2"), Some(IP_A));
    assert_eq!(parse_ipv4("0.0.0.0"), Some(0));
    assert_eq!(parse_ipv4("255.255.255.255"), Some(u32::MAX));
    assert_eq!(parse_ipv4("256.1.1.1"), None);
    assert_eq!(parse_ipv4("01.2.3.4"), None);
    assert_eq!(parse_ipv4("1.2.3"), None);
    assert_eq!(parse_ipv4("1.2.3.4.5"), None);
    assert_eq!(parse_ipv4(""), None);
    assert_eq!(parse_ipv4("10.13.13.2/24"), None);
}

#[test]
fn endpoint_text_round_trip() {
    let ep = Endpoint { ip: 0xcb007109, port: 51820 }; // 203.0.113.9
    assert_eq!(endpoint_to_string(&ep).as_str(), "203.0.113.9:51820");
    assert_eq!(parse_endpoint("203.0.113.9:51820"), Some(ep));
    assert_eq!(parse_endpoint("[::1]:80"), None);
    assert_eq!(parse_endpoint("203.0.113.9"), None);
    assert_eq!(parse_endpoint("203.0.113.9:70000"), None);
}

#[test]
fn next_address_clamps_at_broadcast() {
    assert_eq!(next_ipv4_address(0x0a0d0d01, WG_NETMASK), Some(0x0a0d0d02));
    // one past the broadcast is clamped back to it
    assert_eq!(next_ipv4_address(0x0a0d0dff, WG_NETMASK), Some(0x0a0d0dff));
    assert_eq!(next_ipv4_address(u32::MAX, WG_NETMASK), None);
}

#[test]
fn allocator_is_monotonic_until_exhaustion() {
    // the granted addresses form a strictly increasing run, then none
    let mut assigned: IpMap<String> = IpMap::new();
    let mut previous = WG_FIRST_ADDR;
    let mut granted = 0usize;
    loop {
        match next_available_ipv4_address(&assigned, WG_NETMASK, WG_FIRST_ADDR) {
            Some(ip) => {
                assert!(ip > previous);
                previous = ip;
                granted += 1;
                assigned.insert_new(ip, "peer".to_string());
            }
            None => break,
        }
    }
    // 10.13.13.2 up to and including 10.13.13.255
    assert_eq!(granted, 254);
    assert_eq!(previous, 0x0a0d0dff);
    // exhaustion is stable
    assert_eq!(
        next_available_ipv4_address(&assigned, WG_NETMASK, WG_FIRST_ADDR),
        None
    );
}

#[test]
fn legacy_scan_allocator() {
    let ips: Vec<u32> = vec![0x0a0d0d02, 0x0a0d0d05];
    // of these, only addresses whose network bits equal their host bits are
    // counted; with the /24 mask none are, so nothing is handed out
    assert_eq!(
        wg_gateway::ip_scan::next_available_ipv4_address(&ips, WG_NETMASK),
        None
    );
    let low: Vec<u32> = vec![0x0000_0005];
    assert_eq!(
        wg_gateway::ip_scan::next_available_ipv4_address(&low, 0xffff_ff00),
        None
    );
}

#[test]
fn dump_line_parses_all_fields() {
    let line = "PK_A\tPSK\t203.0.113.9:51820\t10.13.13.2/32,10.13.13.9/32\t12345";
    let peer = parse_line(line).unwrap().unwrap();
    assert_eq!(peer.public_key.as_str(), "PK_A");
    assert_eq!(peer.preshared_key.as_ref().unwrap().as_str(), "PSK");
    assert_eq!(
        peer.remote_address,
        Some(Endpoint { ip: 0xcb007109, port: 51820 })
    );
    assert_eq!(peer.allowed_ips, vec![IP_A, 0x0a0d0d09]);
}

#[test]
fn dump_line_normalises_absent_markers() {
    let line = "PK_A\t(none)\t(none)\t10.13.13.2/32";
    let peer = parse_line(line).unwrap().unwrap();
    assert!(peer.preshared_key.is_none());
    assert!(peer.remote_address.is_none());
    // an empty marker means the same
    let line2 = "PK_A\t\t\t10.13.13.2/32";
    let peer2 = parse_line(line2).unwrap().unwrap();
    assert!(peer2.preshared_key.is_none());
    assert!(peer2.remote_address.is_none());
}

#[test]
fn dump_line_without_address_is_skipped() {
    let line = "PK_A\t(none)\t(none)\t(none)";
    assert!(parse_line(line).unwrap().is_none());
}

#[test]
fn dump_line_with_bad_endpoint_is_an_error() {
    let line = "PK_A\t(none)\tnot-an-endpoint\t10.13.13.2/32";
    assert_eq!(parse_line(line).unwrap_err(), GatewayError::BadDump);
    let short = "PK_A\tonly-two-fields";
    assert_eq!(parse_line(short).unwrap_err(), GatewayError::BadDump);
}

#[test]
fn dump_round_trip_keeps_well_formed_peers() {
    // three well-formed lines and one address-less peer, which is dropped
    let dump = "wg0 private-key-line\n\
        PK_A\tPSK_A\t203.0.113.9:51820\t10.13.13.2/32\n\
        PK_B\t(none)\t(none)\t10.13.13.3/32\n\
        PK_NOIP\t(none)\t(none)\t(none)\n\
        PK_C\t(none)\t198.51.100.5:7\t10.13.13.4/32\n";
    let peers = parse_dump(dump).unwrap();
    assert_eq!(peers.len(), 3);
    assert_eq!(peers[0].public_key.as_str(), "PK_A");
    assert_eq!(peers[1].public_key.as_str(), "PK_B");
    assert_eq!(peers[2].public_key.as_str(), "PK_C");
    // and rendering those peers gives a dump that parses to them again
    let rendered = render_dump("wg0 private-key-line", &peers);
    let again = parse_dump(rendered.as_str()).unwrap();
    assert_eq!(again.len(), 3);
    for (a, b) in peers.iter().zip(again.iter()) {
        assert_eq!(a.public_key, b.public_key);
        assert_eq!(a.preshared_key, b.preshared_key);
        assert_eq!(a.remote_address, b.remote_address);
        assert_eq!(a.allowed_ips, b.allowed_ips);
    }
}

#[test]
fn render_peer_line_writes_the_dump_shape() {
    let peer = parse_line("PK\t(none)\t203.0.113.9:51820\t10.13.13.2/32")
        .unwrap()
        .unwrap();
    assert_eq!(
        render_peer_line(&peer).as_str(),
        "PK\t(none)\t203.0.113.9:51820\t10.13.13.2"
    );
}

#[test]
fn interface_scrapes_are_trimmed() {
    assert_eq!(get_interface_name("wg0\n").as_str(), "wg0");
    assert_eq!(get_public_key("  SERVER_PK \n").as_str(), "SERVER_PK");
}

#[test]
fn command_outcomes() {
    assert_eq!(
        interpret_command(Some(0), "out".to_string(), "err".to_string()).unwrap(),
        "out".to_string()
    );
    let failed = interpret_command(Some(1), "out".to_string(), "boom".to_string()).unwrap_err();
    assert_eq!(failed.status_code, Some(1));
    assert_eq!(failed.stderr.as_str(), "boom");
    let killed = interpret_command(None, String::new(), String::new()).unwrap_err();
    assert_eq!(killed.status_code, None);
    assert!(check_vpn(&Ok("interface: wg0".to_string())));
    assert!(!check_vpn(&Err(CommandError {
        status_code: Some(1),
        stderr: String::new()
    })));
}

#[test]
fn peer_config_lookup_by_vpn_ip() {
    let dump = "iface\nPK_A\t(none)\t203.0.113.9:51820\t10.13.13.2/32\n";
    let peer = get_peer_config_by_vpn_ip(dump, IP_A).unwrap();
    assert_eq!(peer.public_key.as_str(), "PK_A");
    assert_eq!(
        get_peer_config_by_vpn_ip(dump, IP_B).unwrap_err(),
        GatewayError::PeerNotRegistered
    );
}

#[test]
fn first_registration_assigns_first_free_address() {
    // the first scenario: empty daemon, one registration
    let mut db = fresh_db();
    let body = RegisterPeerRequestBody {
        public_key: "PK_A".to_string(),
        preshared_key: None,
    };
    let remote = RemoteInfo::V4(Endpoint { ip: 0xcb007109, port: 51820 });
    let proxy_address = "10.13.13.1:8081".to_string();
    let step = handle_register_to_vpn(&mut db, remote, &body, &proxy_address);
    let assigned = match step {
        RegisterStep::NeedsWgSet(ip) => ip,
        _ => panic!("expected a daemon command"),
    };
    assert_eq!(assigned, IP_A);
    let resp = register_commit(
        &mut db,
        Endpoint { ip: 0xcb007109, port: 51820 },
        &body,
        assigned,
        &proxy_address,
    )
    .unwrap();
    assert_eq!(resp.assigned_ip.as_str(), "10.13.13.2");
    assert_eq!(resp.server_public_key.as_str(), "SERVER_PK");
    assert_eq!(resp.proxy_address.as_str(), "10.13.13.1:8081");
    assert_eq!(resp.assigned_id.len(), 36);
    assert!(resp
        .assigned_id
        .chars()
        .all(|c| c.is_ascii_hexdigit() || c == '-'));
}

#[test]
fn second_peer_gets_the_next_address() {
    let mut db = fresh_db();
    let (ip_a, id_a) = register(&mut db, "PK_A", 0xcb007109, 51820);
    let (ip_b, id_b) = register(&mut db, "PK_B", 0xc6336405, 51820); // 198.51.100.5
    assert_eq!(ip_a.as_str(), "10.13.13.2");
    assert_eq!(ip_b.as_str(), "10.13.13.3");
    assert_ne!(id_a, id_b);
}

#[test]
fn re_registration_is_idempotent() {
    // same key, same socket: same answer, and no second daemon command
    let mut db = fresh_db();
    let (ip1, id1) = register(&mut db, "PK_A", 0xcb007109, 51820);
    let body = RegisterPeerRequestBody {
        public_key: "PK_A".to_string(),
        preshared_key: None,
    };
    let proxy_address = "10.13.13.1:8081".to_string();
    let step = handle_register_to_vpn(
        &mut db,
        RemoteInfo::V4(Endpoint { ip: 0xcb007109, port: 51820 }),
        &body,
        &proxy_address,
    );
    match step {
        RegisterStep::Done(resp) => {
            assert_eq!(resp.assigned_ip, ip1);
            assert_eq!(resp.assigned_id, id1);
        }
        RegisterStep::NeedsWgSet(_) => panic!("a second wg set was issued"),
        RegisterStep::Rejected(e) => panic!("rejected: {}", e.message),
    }
}

#[test]
fn registration_needs_a_remote_socket() {
    let mut db = fresh_db();
    let body = RegisterPeerRequestBody {
        public_key: "PK_A".to_string(),
        preshared_key: None,
    };
    let proxy_address = "p".to_string();
    match handle_register_to_vpn(&mut db, RemoteInfo::Missing, &body, &proxy_address) {
        RegisterStep::Rejected(e) => assert_eq!(e.message.as_str(), "No remote address"),
        _ => panic!("expected a rejection"),
    }
    match handle_register_to_vpn(&mut db, RemoteInfo::V6, &body, &proxy_address) {
        RegisterStep::Rejected(e) => assert_eq!(e.message.as_str(), "Peer is using IPv6"),
        _ => panic!("expected a rejection"),
    }
}

#[test]
fn forwarding_peer_to_backend_adds_identity_headers() {
    // peer-to-backend: X-Destination-Url decides, identity headers are added
    let mut db = fresh_db();
    let (_, id) = register(&mut db, "PK_A", 0xcb007109, 51820);
    let headers = vec![(
        "X-Destination-Url".to_string(),
        "http://backend.example/api".to_string(),
    )];
    let step = forward_request(
        &db,
        RemoteInfo::V4(Endpoint { ip: IP_A, port: 45000 }),
        &headers,
    );
    match step {
        ForwardStep::Proxy(plan) => {
            assert_eq!(plan.upstream.as_str(), "http://backend.example/api");
            let proxied_for = get_header(&plan.headers, "x-proxied-for").unwrap();
            assert_eq!(proxied_for.as_str(), "203.0.113.9");
            let peer_id = get_header(&plan.headers, "x-peer-id").unwrap();
            assert_eq!(peer_id, id);
        }
        _ => panic!("expected a forwarding plan"),
    }
}

#[test]
fn forwarding_backend_to_peer_uses_the_directory() {
    let mut db = fresh_db();
    let (_, id) = register(&mut db, "PK_A", 0xcb007109, 51820);
    let headers = vec![("X-Forward-To-Peer".to_string(), id.clone())];
    match forward_request(&db, RemoteInfo::Missing, &headers) {
        ForwardStep::Proxy(plan) => {
            assert_eq!(plan.upstream.as_str(), "http://10.13.13.2:8888/");
        }
        _ => panic!("expected a forwarding plan"),
    }
    let with_port = vec![
        ("X-Forward-To-Peer".to_string(), id.clone()),
        ("X-Forward-To-Port".to_string(), "9000".to_string()),
    ];
    match forward_request(&db, RemoteInfo::Missing, &with_port) {
        ForwardStep::Proxy(plan) => {
            assert_eq!(plan.upstream.as_str(), "http://10.13.13.2:9000/");
        }
        _ => panic!("expected a forwarding plan"),
    }
}

#[test]
fn forward_to_peer_takes_precedence() {
    // both headers present: the peer lookup wins
    let mut db = fresh_db();
    let (_, id) = register(&mut db, "PK_A", 0xcb007109, 51820);
    let headers = vec![
        ("X-Forward-To-Peer".to_string(), id.clone()),
        ("X-Destination-Url".to_string(), "http://evil.example/".to_string()),
    ];
    match forward_request(
        &db,
        RemoteInfo::V4(Endpoint { ip: IP_A, port: 45000 }),
        &headers,
    ) {
        ForwardStep::Proxy(plan) => {
            assert_eq!(plan.upstream.as_str(), "http://10.13.13.2:8888/");
        }
        _ => panic!("expected a forwarding plan"),
    }
}

#[test]
fn unknown_forward_target_is_rejected() {
    let db = fresh_db();
    let headers = vec![(
        "X-Forward-To-Peer".to_string(),
        "00000000-0000-4000-8000-000000000000".to_string(),
    )];
    match forward_request(&db, RemoteInfo::Missing, &headers) {
        ForwardStep::Rejected(e) => assert_eq!(e.message.as_str(), "Peer not registered"),
        _ => panic!("expected a rejection"),
    }
}

#[test]
fn unknown_sender_falls_back_to_the_daemon() {
    // the sixth scenario: not in the directory, not in the daemon's dump
    let mut db = fresh_db();
    let headers = vec![(
        "X-Destination-Url".to_string(),
        "http://y/".to_string(),
    )];
    let vpn_ip = match forward_request(
        &db,
        RemoteInfo::V4(Endpoint { ip: 0x0a0d0d63, port: 40000 }),
        &headers,
    ) {
        ForwardStep::NeedsDump(ip) => ip,
        _ => panic!("expected a dump fetch"),
    };
    let empty_dump = "iface line only";
    match forward_request_with_dump(&mut db, vpn_ip, &headers, empty_dump) {
        Err(e) => assert_eq!(e.message.as_str(), "Peer not registered"),
        Ok(_) => panic!("expected a rejection"),
    }
}

#[test]
fn known_daemon_peer_reaches_the_degraded_path() {
    let mut db = fresh_db();
    let headers: Vec<(String, String)> = Vec::new();
    let vpn_ip = match forward_request(
        &db,
        RemoteInfo::V4(Endpoint { ip: IP_A, port: 40000 }),
        &headers,
    ) {
        ForwardStep::NeedsDump(ip) => ip,
        _ => panic!("expected a dump fetch"),
    };
    let dump = "iface\nPK_A\t(none)\t203.0.113.9:51820\t10.13.13.2/32\n";
    let plan = forward_request_with_dump(&mut db, vpn_ip, &headers, dump).unwrap();
    assert_eq!(plan.upstream.as_str(), "http://203.0.113.9");
    let forwarded = get_header(&plan.headers, "x-forwarded-for").unwrap();
    assert_eq!(forwarded.as_str(), "203.0.113.9");
}

#[test]
fn peer_info_answers_from_directory_and_daemon() {
    let mut db = fresh_db();
    let (_, id) = register(&mut db, "PK_A", 0xcb007109, 51820);
    let proxy_address = "10.13.13.1:8081".to_string();
    let vpn_ip = handle_peer_info(&db, RemoteInfo::V4(Endpoint { ip: IP_A, port: 40000 }))
        .unwrap();
    let dump = "iface\nPK_A\t(none)\t203.0.113.9:51820\t10.13.13.2/32\n";
    let resp = peer_info_with_dump(&mut db, vpn_ip, dump, &proxy_address).unwrap();
    assert_eq!(resp.id, id);
    assert_eq!(resp.internal_ip.as_str(), "10.13.13.2");
    assert_eq!(resp.public_ip.as_str(), "203.0.113.9");
    assert_eq!(resp.public_key.as_str(), "PK_A");
    assert_eq!(resp.proxy_address.as_str(), "10.13.13.1:8081");
}

#[test]
fn peer_info_rejects_unknown_and_bad_senders() {
    let db = fresh_db();
    assert_eq!(
        handle_peer_info(&db, RemoteInfo::Missing).unwrap_err().message.as_str(),
        "No remote address"
    );
    assert_eq!(
        handle_peer_info(&db, RemoteInfo::V6).unwrap_err().message.as_str(),
        "Peer is using IPv6"
    );
    assert_eq!(
        handle_peer_info(&db, RemoteInfo::V4(Endpoint { ip: IP_A, port: 1 }))
            .unwrap_err()
            .message
            .as_str(),
        "Peer not registered"
    );
}

#[test]
fn directory_lookups() {
    let mut db = fresh_db();
    let (_, id) = register(&mut db, "PK_A", 0xcb007109, 51820);
    let info = db.get_peer_info(IP_A).unwrap();
    assert_eq!(info.id, id);
    assert_eq!(info.public_ip.as_str(), "203.0.113.9");
    assert_eq!(db.get_peer_internal_ip(&id).unwrap(), IP_A);
    assert_eq!(
        db.get_peer_info(IP_B).unwrap_err(),
        GatewayError::PeerNotRegistered
    );
    assert_eq!(
        db.get_peer_internal_ip(&"missing".to_string()).unwrap_err(),
        GatewayError::PeerNotRegistered
    );
    assert_eq!(db.get_peer_public_ip(IP_A).unwrap().as_str(), "203.0.113.9");
    assert!(db.get_peer_public_ip(IP_B).is_none());
}

#[test]
fn map_peer_addresses_parses_the_vpn_ip() {
    let mut db = fresh_db();
    let id = db
        .map_peer_addresses("203.0.113.9".to_string(), "10.13.13.2".to_string())
        .unwrap();
    assert_eq!(db.get_peer_internal_ip(&id).unwrap(), IP_A);
    assert_eq!(
        db.map_peer_addresses("203.0.113.9".to_string(), "nonsense".to_string())
            .unwrap_err(),
        GatewayError::BadAddressText
    );
}

#[test]
fn save_then_load_gives_the_directory_back() {
    // key-by-key equality after writing and reading the directory back
    let mut db = fresh_db();
    let (_, id_a) = register(&mut db, "PK_A", 0xcb007109, 51820);
    let (_, id_b) = register(&mut db, "PK_B", 0xc6336405, 51820);
    let saved = db.save_db();
    let loaded = ProxyDb::load_db(saved.as_str()).unwrap();
    assert_eq!(loaded.vpn.interface_name.as_str(), "wg0");
    assert_eq!(loaded.vpn.interface_public_key.as_str(), "SERVER_PK");
    assert_eq!(loaded.get_peer_internal_ip(&id_a).unwrap(), IP_A);
    assert_eq!(loaded.get_peer_internal_ip(&id_b).unwrap(), IP_B);
    assert_eq!(loaded.get_peer_info(IP_A).unwrap().public_ip.as_str(), "203.0.113.9");
    assert_eq!(loaded.get_peer_info(IP_B).unwrap().public_ip.as_str(), "198.51.100.5");
    // saving the loaded directory writes the identical document
    assert_eq!(loaded.save_db(), saved);
}

#[test]
fn save_escapes_awkward_strings() {
    let vpn = Vpn::new("wg\"0\\x", "SERVER_PK", "iface").unwrap();
    let db = ProxyDb::new(vpn).unwrap();
    let saved = db.save_db();
    let loaded = ProxyDb::load_db(saved.as_str()).unwrap();
    assert_eq!(loaded.vpn.interface_name.as_str(), "wg\"0\\x");
}

#[test]
fn load_rejects_garbage() {
    assert_eq!(
        ProxyDb::load_db("not json").unwrap_err(),
        GatewayError::BadDump
    );
    assert_eq!(
        ProxyDb::load_db("").unwrap_err(),
        GatewayError::BadDump
    );
    // structurally fine but the indices do not tie together
    let broken = "{\"internal_mapping\":{\"10.13.13.2\":{\"id\":\"x\",\"public_ip\":\"p\"}},\"external_mapping\":{},\"vpn\":{\"interface_name\":\"wg0\",\"interface_public_key\":\"PK\",\"peers\":{},\"assigned_ips\":{}}}";
    assert_eq!(
        ProxyDb::load_db(broken).unwrap_err(),
        GatewayError::BadDump
    );
}

#[test]
fn vpn_seeds_directory_rows_for_known_peers() {
    let dump = "iface\nPK_A\t(none)\t203.0.113.9:51820\t10.13.13.2/32\n";
    let vpn = Vpn::new("wg0", "SERVER_PK", dump).unwrap();
    let db = ProxyDb::new(vpn).unwrap();
    let info = db.get_peer_info(IP_A).unwrap();
    assert_eq!(info.public_ip.as_str(), "203.0.113.9");
}

#[test]
fn add_or_update_updates_the_remote_address() {
    let dump = "iface\nPK_A\t(none)\t203.0.113.9:51820\t10.13.13.2/32\n";
    let mut vpn = Vpn::new("wg0", "SERVER_PK", dump).unwrap();
    let new_remote = Endpoint { ip: 0xc6336405, port: 7 };
    match vpn.add_or_update_peer(&"PK_A".to_string(), Some(new_remote)) {
        AddPeerStep::Updated(peer) => {
            assert_eq!(peer.remote_address, Some(new_remote));
            assert_eq!(peer.allowed_ips, vec![IP_A]);
        }
        _ => panic!("expected an update"),
    }
    // the stored record changed too
    let refreshed = vpn.refresh_and_get_peer(IP_A, dump).unwrap();
    assert_eq!(refreshed.public_key.as_str(), "PK_A");
}

#[test]
fn refresh_reports_missing_peers() {
    let mut vpn = Vpn::new("wg0", "SERVER_PK", "iface").unwrap();
    assert_eq!(
        vpn.refresh_and_get_peer(IP_A, "iface").unwrap_err(),
        GatewayError::PeerNotRegistered
    );
    assert_eq!(
        vpn.refresh_and_get_peer(IP_A, "iface\nbroken line").unwrap_err(),
        GatewayError::BadDump
    );
}

#[test]
fn exhausted_network_rejects_registration() {
    let mut db = fresh_db();
    let mut granted = 0u32;
    loop {
        let key = format!("PK_{granted}");
        let body = RegisterPeerRequestBody {
            public_key: key,
            preshared_key: None,
        };
        let proxy_address = "p".to_string();
        match handle_register_to_vpn(
            &mut db,
            RemoteInfo::V4(Endpoint { ip: 0xcb007109, port: 51820 }),
            &body,
            &proxy_address,
        ) {
            RegisterStep::NeedsWgSet(ip) => {
                register_commit(
                    &mut db,
                    Endpoint { ip: 0xcb007109, port: 51820 },
                    &body,
                    ip,
                    &proxy_address,
                )
                .unwrap();
                granted += 1;
            }
            RegisterStep::Rejected(e) => {
                assert_eq!(e.message.as_str(), "No available ip address");
                break;
            }
            RegisterStep::Done(_) => panic!("keys are all fresh"),
        }
    }
    assert_eq!(granted, 254);
}

#[test]
fn daemon_command_arguments() {
    let vpn = Vpn::new("wg0", "SERVER_PK", "iface").unwrap();
    let set = vpn.wg_set_peer_args(&"PK_A".to_string(), IP_A);
    let set_ref: Vec<&str> = set.iter().map(|s| s.as_str()).collect();
    assert_eq!(
        set_ref,
        vec!["set", "wg0", "peer", "PK_A", "allowed-ips", "10.13.13.2"]
    );
    let down: Vec<String> = vpn.wg_quick_down_args();
    assert_eq!(down, vec!["down".to_string(), "wg0".to_string()]);
    let up: Vec<String> = vpn.wg_quick_up_args();
    assert_eq!(up, vec!["up".to_string(), "wg0".to_string()]);
    let dump: Vec<String> = vpn.wg_show_dump_args();
    assert_eq!(
        dump,
        vec!["show".to_string(), "wg0".to_string(), "dump".to_string()]
    );
}

#[test]
fn empty_destination_url_is_rejected() {
    // an empty computed upstream surfaces as the peer-not-registered error
    let mut db = fresh_db();
    let _ = register(&mut db, "PK_A", 0xcb007109, 51820);
    let headers = vec![("X-Destination-Url".to_string(), "".to_string())];
    match forward_request(
        &db,
        RemoteInfo::V4(Endpoint { ip: IP_A, port: 45000 }),
        &headers,
    ) {
        ForwardStep::Rejected(e) => assert_eq!(e.message.as_str(), "Peer not registered"),
        _ => panic!("expected a rejection"),
    }
}

#[test]
fn malformed_dump_surfaces_its_own_wording() {
    let mut db = fresh_db();
    let headers: Vec<(String, String)> = Vec::new();
    let vpn_ip = match forward_request(
        &db,
        RemoteInfo::V4(Endpoint { ip: IP_A, port: 40000 }),
        &headers,
    ) {
        ForwardStep::NeedsDump(ip) => ip,
        _ => panic!("expected a dump fetch"),
    };
    let bad_dump = "iface\nonly-one-field";
    match forward_request_with_dump(&mut db, vpn_ip, &headers, bad_dump) {
        Err(e) => assert_eq!(e.message.as_str(), "Unexpected wg dump format"),
        Ok(_) => panic!("expected a rejection"),
    }
    // the same on the peer-info path
    let mut db2 = fresh_db();
    let _ = register(&mut db2, "PK_A", 0xcb007109, 51820);
    let proxy_address = "p".to_string();
    match peer_info_with_dump(&mut db2, IP_A, bad_dump, &proxy_address) {
        Err(e) => assert_eq!(e.message.as_str(), "Unexpected wg dump format"),
        Ok(_) => panic!("expected a rejection"),
    }
}

#[test]
fn stale_commit_is_rejected_and_records_nothing() {
    let mut db = fresh_db();
    let body = RegisterPeerRequestBody {
        public_key: "PK_A".to_string(),
        preshared_key: None,
    };
    let proxy_address = "p".to_string();
    let ep = Endpoint { ip: 0xcb007109, port: 51820 };
    // committing an address that is not the next free one
    match register_commit(&mut db, ep, &body, IP_B, &proxy_address) {
        Err(e) => assert_eq!(e.message.as_str(), "Registration out of date"),
        Ok(_) => panic!("expected a rejection"),
    }
    // committing a key that is already recorded
    let _ = register(&mut db, "PK_A", 0xcb007109, 51820);
    match register_commit(&mut db, ep, &body, IP_B, &proxy_address) {
        Err(e) => assert_eq!(e.message.as_str(), "Registration out of date"),
        Ok(_) => panic!("expected a rejection"),
    }
    assert!(db.get_peer_info(IP_B).is_err());
}
