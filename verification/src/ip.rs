//! IPv4 addresses as 32-bit integers: the network arithmetic behind the
//! monotonic VPN address allocator.
//!
//! An address is held as a `u32` in network order (`10.13.13.1` is
//! `0x0a0d0d01`). A netmask is a `u32` with some number of leading one bits.

use vstd::prelude::*;

use crate::dec::{
    all_digits, dec_of, is_digit, lemma_dec_of_digits, lemma_dec_roundtrip, parse_u32,
    parse_u32_spec, u32_to_dec,
};
use crate::ipmap::IpMap;
use crate::text::{lemma_split_prepend, lemma_split_single, split, split_spec};

verus! {

/// The netmask of the WireGuard /24 network.
pub const WG_NETMASK: u32 = 0xffff_ff00;

/// The first address of the WireGuard network, reserved for the interface
/// itself (`10.13.13.1`). Peers are handed addresses strictly above it.
pub const WG_FIRST_ADDR: u32 = 0x0a0d_0d01;

/// The network prefix of `ip` under `mask`: all host bits cleared.
pub open spec fn network_prefix(ip: u32, mask: u32) -> u32 {
    ip & mask
}

/// The number of host addresses above the prefix (`2^h - 1` for `h` host bits).
pub open spec fn host_range(mask: u32) -> u32 {
    mask ^ 0xffff_ffffu32
}

/// The broadcast address of the network containing `ip` under `mask`:
/// the prefix with all host bits set. Stated over `int` so that it is
/// manifestly overflow-free; `lemma_broadcast_fits` bounds it.
pub open spec fn broadcast_addr(ip: u32, mask: u32) -> int {
    network_prefix(ip, mask) + host_range(mask)
}

/// The prefix and the host range occupy disjoint bits, so the broadcast
/// address fits in a `u32`.
pub proof fn lemma_broadcast_fits(ip: u32, mask: u32)
    ensures
        broadcast_addr(ip, mask) <= 0xffff_ffffu32,
{
    assert((ip & mask) + (mask ^ 0xffff_ffffu32) <= 0xffff_ffffu32) by (bit_vector);
}

/// What `next_ipv4_address` returns: the successor of `ip`, clamped to the
/// broadcast address of `ip`'s own network; nothing past the last address.
pub open spec fn next_ip_spec(ip: u32, mask: u32) -> Option<u32> {
    if ip == 0xffff_ffffu32 {
        None
    } else if ip + 1 <= broadcast_addr(ip, mask) {
        Some((ip + 1) as u32)
    } else {
        Some(broadcast_addr(ip, mask) as u32)
    }
}

/// The successor of `ip` within its network under `mask`, clamped to the
/// network's broadcast address; `None` only when `ip` is the last `u32`.
pub fn next_ipv4_address(ip_num: u32, netmask: u32) -> (r: Option<u32>)
    ensures
        r == next_ip_spec(ip_num, netmask),
{
    let network_prefix: u32 = ip_num & netmask;
    let network_range: u32 = netmask ^ 0xffff_ffff;
    proof {
        lemma_broadcast_fits(ip_num, netmask);
    }
    if ip_num == 0xffff_ffff {
        None
    } else {
        let next: u32 = ip_num + 1;
        let limit: u32 = network_prefix + network_range;
        if next <= limit {
            Some(next)
        } else {
            Some(limit)
        }
    }
}

/// The largest address among the assigned ones and `first`: the watermark the
/// allocator never goes back under.
pub open spec fn max_assigned<V>(s: Seq<(u32, V)>, first: u32) -> int
    decreases s.len(),
{
    if s.len() == 0 {
        first as int
    } else if s.last().0 > max_assigned(s.drop_last(), first) {
        s.last().0 as int
    } else {
        max_assigned(s.drop_last(), first)
    }
}

pub proof fn lemma_max_assigned_ge<V>(s: Seq<(u32, V)>, first: u32)
    ensures
        max_assigned(s, first) >= first,
        forall|i: int| 0 <= i < s.len() ==> max_assigned(s, first) >= s[i].0,
        max_assigned(s, first) <= 0xffff_ffffu32,
    decreases s.len(),
{
    if s.len() > 0 {
        lemma_max_assigned_ge(s.drop_last(), first);
        assert forall|i: int| 0 <= i < s.len() implies max_assigned(s, first) >= s[i].0 by {
            if i < s.len() - 1 {
                assert(s.drop_last()[i] == s[i]);
            }
        }
    }
}

/// What the allocator returns: one above the watermark, or nothing once the
/// watermark has reached the broadcast address of `first`'s network.
pub open spec fn next_available_spec<V>(s: Seq<(u32, V)>, mask: u32, first: u32) -> Option<u32> {
    if max_assigned(s, first) >= broadcast_addr(first, mask) {
        None
    } else {
        Some((max_assigned(s, first) + 1) as u32)
    }
}

/// The next free VPN address: one above the largest of `first_addr` and the
/// assigned addresses, or `None` once that would leave `first_addr`'s network.
/// Freed addresses are never reused.
pub fn next_available_ipv4_address<V>(ip_addrs: &IpMap<V>, netmask: u32, first_addr: u32) -> (r:
    Option<u32>)
    ensures
        r == next_available_spec(ip_addrs.kvs(), netmask, first_addr),
{
    let n = ip_addrs.len();
    let mut max_ip: u32 = first_addr;
    let mut i: usize = 0;
    proof {
        assert(ip_addrs.kvs().take(0) =~= Seq::<(u32, V)>::empty());
    }
    while i < n
        invariant
            n == ip_addrs.kvs().len(),
            0 <= i <= n,
            max_ip == max_assigned(ip_addrs.kvs().take(i as int), first_addr),
        decreases n - i,
    {
        let k = ip_addrs.key_at(i);
        proof {
            assert(ip_addrs.kvs().take(i + 1).drop_last() =~= ip_addrs.kvs().take(i as int));
            assert(ip_addrs.kvs().take(i + 1).last() == ip_addrs.kvs()[i as int]);
        }
        if k > max_ip {
            max_ip = k;
        }
        i = i + 1;
    }
    proof {
        assert(ip_addrs.kvs().take(n as int) =~= ip_addrs.kvs());
        lemma_broadcast_fits(first_addr, netmask);
    }
    let limit: u32 = (first_addr & netmask) + (netmask ^ 0xffff_ffff);
    if max_ip >= limit {
        None
    } else {
        Some(max_ip + 1)
    }
}

/// A granted address lies strictly above `first` and every assigned address,
/// and strictly inside the network: the allocation watermark only climbs.
pub proof fn lemma_alloc_above_assigned<V>(s: Seq<(u32, V)>, mask: u32, first: u32)
    requires
        next_available_spec(s, mask, first) is Some,
    ensures
        next_available_spec(s, mask, first).unwrap() > first,
        next_available_spec(s, mask, first).unwrap() <= broadcast_addr(first, mask),
        forall|i: int| 0 <= i < s.len() ==> next_available_spec(s, mask, first).unwrap() > s[i].0,
{
    lemma_max_assigned_ge(s, first);
    lemma_broadcast_fits(first, mask);
}

/// Allocating the granted address and asking again yields its successor while
/// the network lasts, and nothing afterwards: over a growing assigned set the
/// granted addresses form a strictly increasing run that ends in exhaustion.
pub proof fn lemma_alloc_monotone<V>(s: Seq<(u32, V)>, v: V, mask: u32, first: u32)
    requires
        next_available_spec(s, mask, first) is Some,
    ensures
        ({
            let ip = next_available_spec(s, mask, first).unwrap();
            match next_available_spec(s.push((ip, v)), mask, first) {
                Some(ip2) => ip2 == ip + 1 && ip2 > ip,
                None => ip == broadcast_addr(first, mask),
            }
        }),
{
    let ip = next_available_spec(s, mask, first).unwrap();
    lemma_max_assigned_ge(s, first);
    lemma_broadcast_fits(first, mask);
    assert(s.push((ip, v)).drop_last() =~= s);
    assert(max_assigned(s.push((ip, v)), first) == ip);
}

/// Exhaustion is stable: once the allocator answers `None`, it still answers
/// `None` after any further entry joins the assigned set.
pub proof fn lemma_alloc_exhausted<V>(s: Seq<(u32, V)>, e: (u32, V), mask: u32, first: u32)
    requires
        next_available_spec(s, mask, first) is None,
    ensures
        next_available_spec(s.push(e), mask, first) is None,
{
    assert(s.push(e).drop_last() =~= s);
}

/// The four octets of an address, most significant first.
pub open spec fn oct_a(n: u32) -> int {
    n as int / 0x0100_0000
}

pub open spec fn oct_b(n: u32) -> int {
    (n as int / 0x0001_0000) % 256
}

pub open spec fn oct_c(n: u32) -> int {
    (n as int / 0x0000_0100) % 256
}

pub open spec fn oct_d(n: u32) -> int {
    n as int % 256
}

/// The address with the given octets.
pub open spec fn from_octets(a: int, b: int, c: int, d: int) -> int {
    a * 0x0100_0000 + b * 0x0001_0000 + c * 0x0000_0100 + d
}

/// Splitting an address into octets and reassembling gives it back.
pub proof fn lemma_octets_compose(n: u32)
    ensures
        0 <= oct_a(n) < 256,
        0 <= oct_b(n) < 256,
        0 <= oct_c(n) < 256,
        0 <= oct_d(n) < 256,
        from_octets(oct_a(n), oct_b(n), oct_c(n), oct_d(n)) == n,
{
    let m = n as int;
    vstd::arithmetic::div_mod::lemma_fundamental_div_mod(m, 256);
    vstd::arithmetic::div_mod::lemma_fundamental_div_mod(m / 256, 256);
    vstd::arithmetic::div_mod::lemma_fundamental_div_mod(m / 0x1_0000, 256);
    vstd::arithmetic::div_mod::lemma_div_denominator(m, 256, 256);
    vstd::arithmetic::div_mod::lemma_div_denominator(m, 0x1_0000, 256);
    assert(m / 0x0100_0000 < 256) by {
        vstd::arithmetic::div_mod::lemma_div_is_ordered(m, 0xffff_ffff, 0x0100_0000);
    }
    assert(m / 0x0100_0000 >= 0) by {
        vstd::arithmetic::div_mod::lemma_div_is_ordered(0, m, 0x0100_0000);
    }
}

/// The dotted-quad rendering of an address.
pub open spec fn ipv4_of(n: u32) -> Seq<char> {
    dec_of(oct_a(n)) + seq!['.'] + dec_of(oct_b(n)) + seq!['.'] + dec_of(oct_c(n)) + seq!['.']
        + dec_of(oct_d(n))
}

/// What strict dotted-quad parsing accepts: exactly four octets separated by
/// dots, each a decimal number below 256 without a leading zero.
pub open spec fn parse_ipv4_spec(s: Seq<char>) -> Option<u32> {
    let parts = split_spec(s, '.');
    if parts.len() == 4 {
        match (
            parse_u32_spec(parts[0]),
            parse_u32_spec(parts[1]),
            parse_u32_spec(parts[2]),
            parse_u32_spec(parts[3]),
        ) {
            (Some(a), Some(b), Some(c), Some(d)) => if a < 256 && b < 256 && c < 256 && d < 256 {
                Some(from_octets(a as int, b as int, c as int, d as int) as u32)
            } else {
                None
            },
            _ => None,
        }
    } else {
        None
    }
}

/// Renders `n` as a dotted quad.
pub fn ipv4_to_string(n: u32) -> (r: String)
    ensures
        r@ == ipv4_of(n),
{
    proof {
        lemma_octets_compose(n);
        reveal_strlit(".");
    }
    let a: u32 = n / 0x0100_0000;
    let b: u32 = (n / 0x0001_0000) % 256;
    let c: u32 = (n / 0x0000_0100) % 256;
    let d: u32 = n % 256;
    let mut out = u32_to_dec(a);
    out.append(".");
    out.append(u32_to_dec(b).as_str());
    out.append(".");
    out.append(u32_to_dec(c).as_str());
    out.append(".");
    out.append(u32_to_dec(d).as_str());
    proof {
        assert("."@ =~= seq!['.']);
        assert(out@ =~= ipv4_of(n));
    }
    out
}

/// Strict dotted-quad parsing, equal to [`parse_ipv4_spec`] on the view.
pub fn parse_ipv4(s: &str) -> (r: Option<u32>)
    ensures
        r == parse_ipv4_spec(s@),
{
    let parts = split(s, '.');
    if parts.len() != 4 {
        return None;
    }
    let pa = parse_u32(parts[0].as_str());
    let pb = parse_u32(parts[1].as_str());
    let pc = parse_u32(parts[2].as_str());
    let pd = parse_u32(parts[3].as_str());
    match (pa, pb, pc, pd) {
        (Some(a), Some(b), Some(c), Some(d)) => {
            if a < 256 && b < 256 && c < 256 && d < 256 {
                Some(a * 0x0100_0000 + b * 0x0001_0000 + c * 0x0000_0100 + d)
            } else {
                None
            }
        },
        _ => None,
    }
}

/// Rendering is injective: two addresses with the same dotted quad are the
/// same address.
pub proof fn lemma_ipv4_of_injective(a: u32, b: u32)
    requires
        ipv4_of(a) == ipv4_of(b),
    ensures
        a == b,
{
    lemma_ipv4_roundtrip(a);
    lemma_ipv4_roundtrip(b);
}

/// The round trip: parsing undoes rendering of an address.
pub proof fn lemma_ipv4_roundtrip(n: u32)
    ensures
        parse_ipv4_spec(ipv4_of(n)) == Some(n),
{
    lemma_octets_compose(n);
    let a = oct_a(n);
    let b = oct_b(n);
    let c = oct_c(n);
    let d = oct_d(n);
    lemma_dec_of_digits(a);
    lemma_dec_of_digits(b);
    lemma_dec_of_digits(c);
    lemma_dec_of_digits(d);
    let sa = dec_of(a);
    let sb = dec_of(b);
    let sc = dec_of(c);
    let sd = dec_of(d);
    let whole = ipv4_of(n);
    let tail_b = sb + seq!['.'] + sc + seq!['.'] + sd;
    let tail_c = sc + seq!['.'] + sd;
    assert(whole =~= sa + seq!['.'] + tail_b);
    lemma_no_dot(sa);
    lemma_no_dot(sb);
    lemma_no_dot(sc);
    lemma_no_dot(sd);
    lemma_split_prepend(sa, tail_b, '.');
    assert(tail_b =~= sb + seq!['.'] + tail_c);
    lemma_split_prepend(sb, tail_c, '.');
    lemma_split_prepend(sc, sd, '.');
    lemma_split_single(sd, '.');
    let parts = split_spec(whole, '.');
    assert(parts =~= seq![sa, sb, sc, sd]);
    lemma_dec_roundtrip(a as u32);
    lemma_dec_roundtrip(b as u32);
    lemma_dec_roundtrip(c as u32);
    lemma_dec_roundtrip(d as u32);
}

/// A digit string contains no dot.
proof fn lemma_no_dot(s: Seq<char>)
    requires
        all_digits(s),
    ensures
        forall|i: int| 0 <= i < s.len() ==> s[i] != '.',
{
    assert forall|i: int| 0 <= i < s.len() implies s[i] != '.' by {
        assert(is_digit(s[i]));
    }
}

/// A peer's public socket: an IPv4 address and a port, as WireGuard reports
/// it in the endpoint column of a dump.
#[derive(Clone, Copy, Debug, PartialEq, Eq, Structural)]
pub struct Endpoint {
    pub ip: u32,
    pub port: u16,
}

/// The `ip:port` rendering of an endpoint.
pub open spec fn endpoint_of(ep: Endpoint) -> Seq<char> {
    ipv4_of(ep.ip) + seq![':'] + dec_of(ep.port as int)
}

/// What strict endpoint parsing accepts: a dotted quad, one colon, and a
/// decimal port below 65536. An IPv6 endpoint has more than one colon and is
/// rejected.
pub open spec fn parse_endpoint_spec(s: Seq<char>) -> Option<Endpoint> {
    let parts = split_spec(s, ':');
    if parts.len() == 2 {
        match (parse_ipv4_spec(parts[0]), parse_u32_spec(parts[1])) {
            (Some(ip), Some(port)) => if port < 0x1_0000 {
                Some(Endpoint { ip, port: port as u16 })
            } else {
                None
            },
            _ => None,
        }
    } else {
        None
    }
}

/// Renders an endpoint as `ip:port`.
pub fn endpoint_to_string(ep: &Endpoint) -> (r: String)
    ensures
        r@ == endpoint_of(*ep),
{
    let mut out = ipv4_to_string(ep.ip);
    proof {
        reveal_strlit(":");
        assert(":"@ =~= seq![':']);
    }
    out.append(":");
    out.append(u32_to_dec(ep.port as u32).as_str());
    proof {
        assert(out@ =~= endpoint_of(*ep));
    }
    out
}

/// Strict endpoint parsing, equal to [`parse_endpoint_spec`] on the view.
pub fn parse_endpoint(s: &str) -> (r: Option<Endpoint>)
    ensures
        r == parse_endpoint_spec(s@),
{
    let parts = split(s, ':');
    if parts.len() != 2 {
        return None;
    }
    let ip = parse_ipv4(parts[0].as_str());
    let port = parse_u32(parts[1].as_str());
    match (ip, port) {
        (Some(ip), Some(port)) => {
            if port < 0x1_0000 {
                Some(Endpoint { ip, port: port as u16 })
            } else {
                None
            }
        },
        _ => None,
    }
}

/// The characters of a dotted quad are digits and dots; in particular there
/// is no colon among them.
pub proof fn lemma_ipv4_chars(n: u32)
    ensures
        forall|i: int| 0 <= i < ipv4_of(n).len() ==> (is_digit(ipv4_of(n)[i]) || ipv4_of(n)[i]
            == '.'),
{
    lemma_octets_compose(n);
    lemma_dec_of_digits(oct_a(n));
    lemma_dec_of_digits(oct_b(n));
    lemma_dec_of_digits(oct_c(n));
    lemma_dec_of_digits(oct_d(n));
}

/// The characters of a rendered endpoint: digits, dots and one colon.
pub proof fn lemma_endpoint_chars(ep: Endpoint)
    ensures
        forall|i: int| 0 <= i < endpoint_of(ep).len() ==> (is_digit(endpoint_of(ep)[i])
            || endpoint_of(ep)[i] == '.' || endpoint_of(ep)[i] == ':'),
{
    lemma_ipv4_chars(ep.ip);
    lemma_dec_of_digits(ep.port as int);
    let e = endpoint_of(ep);
    let a = ipv4_of(ep.ip);
    let d = dec_of(ep.port as int);
    assert forall|i: int| 0 <= i < e.len() implies (is_digit(e[i]) || e[i] == '.' || e[i]
        == ':') by {
        if i < a.len() {
            assert(e[i] == a[i]);
        } else if i == a.len() {
            assert(e[i] == ':');
        } else {
            assert(e[i] == d[i - a.len() - 1]);
        }
    }
}

/// A rendered endpoint is never empty.
pub proof fn lemma_endpoint_nonempty(ep: Endpoint)
    ensures
        endpoint_of(ep).len() > 0,
{
    lemma_dec_of_digits(ep.port as int);
}

/// The round trip: parsing undoes rendering of an endpoint.
pub proof fn lemma_endpoint_roundtrip(ep: Endpoint)
    ensures
        parse_endpoint_spec(endpoint_of(ep)) == Some(ep),
{
    let sa = ipv4_of(ep.ip);
    let sp = dec_of(ep.port as int);
    lemma_ipv4_chars(ep.ip);
    lemma_dec_of_digits(ep.port as int);
    assert forall|i: int| 0 <= i < sa.len() implies sa[i] != ':' by {
        assert(is_digit(sa[i]) || sa[i] == '.');
    }
    assert forall|i: int| 0 <= i < sp.len() implies sp[i] != ':' by {
        assert(is_digit(sp[i]));
    }
    assert(endpoint_of(ep) =~= sa + seq![':'] + sp);
    lemma_split_prepend(sa, sp, ':');
    lemma_split_single(sp, ':');
    let parts = split_spec(endpoint_of(ep), ':');
    assert(parts =~= seq![sa, sp]);
    lemma_ipv4_roundtrip(ep.ip);
    lemma_dec_roundtrip(ep.port as u32);
}

} // verus!
