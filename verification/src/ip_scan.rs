//! The older address scan: the next address after the largest of a plain
//! list, kept alongside the map-based allocator.

use vstd::prelude::*;

use crate::ip::{next_ip_spec, next_ipv4_address};

verus! {

/// Whether the scan counts `ip`: its network bits equal its host
/// bits under the mask.
pub open spec fn scan_counts(ip: u32, mask: u32) -> bool {
    (ip & mask) == (ip & (mask ^ 0xffff_ffffu32))
}

/// The largest counted address of the list, or zero when none is counted.
pub open spec fn scan_max(s: Seq<u32>, mask: u32) -> u32
    decreases s.len(),
{
    if s.len() == 0 {
        0u32
    } else if scan_counts(s.last(), mask) && s.last() > scan_max(s.drop_last(), mask) {
        s.last()
    } else {
        scan_max(s.drop_last(), mask)
    }
}

/// The successor of the largest counted address of the list, clamped to its
/// network; nothing when no address was counted.
pub fn next_available_ipv4_address(ip_addrs: &Vec<u32>, netmask: u32) -> (r: Option<u32>)
    ensures
        r == (if scan_max(ip_addrs@, netmask) == 0 {
            None::<u32>
        } else {
            next_ip_spec(scan_max(ip_addrs@, netmask), netmask)
        }),
{
    let network_range: u32 = netmask ^ 0xffff_ffff;
    let n = ip_addrs.len();
    let mut max_ip: u32 = 0;
    let mut i: usize = 0;
    proof {
        assert(ip_addrs@.take(0) =~= Seq::<u32>::empty());
    }
    while i < n
        invariant
            n == ip_addrs@.len(),
            network_range == netmask ^ 0xffff_ffffu32,
            0 <= i <= n,
            max_ip == scan_max(ip_addrs@.take(i as int), netmask),
        decreases n - i,
    {
        let ip = ip_addrs[i];
        proof {
            assert(ip_addrs@.take(i + 1).drop_last() =~= ip_addrs@.take(i as int));
            assert(ip_addrs@.take(i + 1).last() == ip_addrs@[i as int]);
        }
        if (ip & netmask) == (ip & network_range) && ip > max_ip {
            max_ip = ip;
        }
        i = i + 1;
    }
    proof {
        assert(ip_addrs@.take(n as int) =~= ip_addrs@);
    }
    if max_ip == 0 {
        None
    } else {
        next_ipv4_address(max_ip, netmask)
    }
}

} // verus!
