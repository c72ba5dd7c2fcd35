//! Parsing of `wg show <interface> dump` output.
//!
//! A dump is one line for the interface followed by one tab-separated line
//! per peer: public key, preshared key, endpoint, allowed IPs, and further
//! fields that are ignored. `""` and `"(none)"` stand for an absent preshared
//! key or endpoint; allowed IPs are a comma-separated list of `ip/prefix`
//! entries whose prefix is dropped. A peer line without a single IPv4 allowed
//! address describes no reachable peer and is skipped.

use vstd::prelude::*;

use crate::dec::is_digit;
use crate::errors::GatewayError;
use crate::ip::{
    endpoint_of, endpoint_to_string, ipv4_of, ipv4_to_string, lemma_endpoint_roundtrip,
    lemma_ipv4_roundtrip, parse_endpoint, parse_endpoint_spec, parse_ipv4, parse_ipv4_spec,
};
use crate::peer::{PeerView, RegisteredPeer};
use crate::text::{
    is_space, lemma_find_spec_none, lemma_leading_spaces_bounds, lemma_split_prepend,
    lemma_split_single, lemma_trailing_spaces_bounds, split, split_spec, trim, trim_spec,
};

verus! {

/// The characters of the `"(none)"` marker.
pub open spec fn none_marker() -> Seq<char> {
    seq!['(', 'n', 'o', 'n', 'e', ')']
}

/// An absent field: empty or the `"(none)"` marker.
pub open spec fn norm_opt(f: Seq<char>) -> Option<Seq<char>> {
    if f.len() == 0 || f == none_marker() {
        None
    } else {
        Some(f)
    }
}

/// Whether `s` reads as an absent field.
pub fn is_none_marker(s: &str) -> (r: bool)
    ensures
        r == (norm_opt(s@) is None),
{
    let n = s.unicode_len();
    if n == 0 {
        return true;
    }
    if n != 6 {
        return false;
    }
    let r = s.get_char(0) == '(' && s.get_char(1) == 'n' && s.get_char(2) == 'o' && s.get_char(3)
        == 'n' && s.get_char(4) == 'e' && s.get_char(5) == ')';
    proof {
        if r {
            assert(s@ =~= none_marker());
        }
    }
    r
}

/// The IPv4 address of one allowed-ips entry: what stands before any `/`,
/// trimmed, read as a dotted quad. Entries that do not read so (IPv6 ones,
/// the absent-markers, stray text) yield nothing.
pub open spec fn ip_of_entry(e: Seq<char>) -> Option<u32> {
    parse_ipv4_spec(trim_spec(split_spec(e, '/')[0]))
}

/// The IPv4 addresses of a sequence of allowed-ips entries, in order,
/// unreadable entries skipped.
pub open spec fn ips_of_entries(entries: Seq<Seq<char>>) -> Seq<u32>
    decreases entries.len(),
{
    if entries.len() == 0 {
        Seq::empty()
    } else {
        match ip_of_entry(entries.last()) {
            Some(ip) => ips_of_entries(entries.drop_last()).push(ip),
            None => ips_of_entries(entries.drop_last()),
        }
    }
}

/// The allowed-ips field read as addresses.
pub open spec fn allowed_ips_of(f: Seq<char>) -> Seq<u32> {
    ips_of_entries(split_spec(f, ','))
}

/// What one peer line of a dump describes.
pub enum LineOutcome {
    /// The line does not have the dump shape: an error.
    Bad,
    /// The line carries no usable VPN address: the peer is dropped.
    Skip,
    /// A peer.
    Peer(PeerView),
}

/// How one peer line is read: at least four tab-separated fields, each
/// trimmed; absent markers for the preshared key and the endpoint; the
/// endpoint, when present, a strict `ipv4:port`.
pub open spec fn parse_line_spec(line: Seq<char>) -> LineOutcome {
    let fields = split_spec(line, '\t');
    if fields.len() < 4 {
        LineOutcome::Bad
    } else {
        let pk = trim_spec(fields[0]);
        let psk = norm_opt(trim_spec(fields[1]));
        let ips = allowed_ips_of(fields[3]);
        match norm_opt(trim_spec(fields[2])) {
            Some(ra_text) => match parse_endpoint_spec(ra_text) {
                Some(ep) => if ips.len() == 0 {
                    LineOutcome::Skip
                } else {
                    LineOutcome::Peer(
                        PeerView {
                            public_key: pk,
                            preshared_key: psk,
                            remote_address: Some(ep),
                            allowed_ips: ips,
                        },
                    )
                },
                None => LineOutcome::Bad,
            },
            None => if ips.len() == 0 {
                LineOutcome::Skip
            } else {
                LineOutcome::Peer(
                    PeerView {
                        public_key: pk,
                        preshared_key: psk,
                        remote_address: None,
                        allowed_ips: ips,
                    },
                )
            },
        }
    }
}

/// The peers described by a sequence of lines, in order; blank lines are
/// passed over, and one bad line spoils the whole reading.
pub open spec fn parse_lines_spec(lines: Seq<Seq<char>>) -> Option<Seq<PeerView>>
    decreases lines.len(),
{
    if lines.len() == 0 {
        Some(Seq::empty())
    } else {
        match parse_lines_spec(lines.drop_last()) {
            None => None,
            Some(acc) => if trim_spec(lines.last()).len() == 0 {
                Some(acc)
            } else {
                match parse_line_spec(lines.last()) {
                    LineOutcome::Bad => None,
                    LineOutcome::Skip => Some(acc),
                    LineOutcome::Peer(p) => Some(acc.push(p)),
                }
            },
        }
    }
}

/// The peers described by a whole dump: every line after the interface line.
pub open spec fn parse_dump_spec(s: Seq<char>) -> Option<Seq<PeerView>> {
    parse_lines_spec(split_spec(s, '\n').drop_first())
}

/// One bad line spoils every longer reading.
proof fn lemma_parse_lines_prefix_none(lines: Seq<Seq<char>>, k: int)
    requires
        0 <= k <= lines.len(),
        parse_lines_spec(lines.take(k)) is None,
    ensures
        parse_lines_spec(lines) is None,
    decreases lines.len() - k,
{
    if k < lines.len() {
        assert(lines.take(k + 1).drop_last() =~= lines.take(k));
        lemma_parse_lines_prefix_none(lines, k + 1);
    } else {
        assert(lines.take(k) =~= lines);
    }
}

/// Reads one peer line, as [`parse_line_spec`] says.
pub fn parse_line(line: &str) -> (r: Result<Option<RegisteredPeer>, GatewayError>)
    ensures
        match r {
            Ok(Some(p)) => parse_line_spec(line@) == LineOutcome::Peer(p@),
            Ok(None) => parse_line_spec(line@) is Skip,
            Err(e) => parse_line_spec(line@) is Bad && e == GatewayError::BadDump,
        },
{
    let fields = split(line, '\t');
    if fields.len() < 4 {
        return Err(GatewayError::BadDump);
    }
    let pk = trim(fields[0].as_str());
    let psk_text = trim(fields[1].as_str());
    let ra_text = trim(fields[2].as_str());
    let preshared_key = if is_none_marker(psk_text.as_str()) {
        None
    } else {
        Some(psk_text)
    };
    let remote_address = if is_none_marker(ra_text.as_str()) {
        None
    } else {
        match parse_endpoint(ra_text.as_str()) {
            Some(ep) => Some(ep),
            None => {
                return Err(GatewayError::BadDump);
            },
        }
    };
    let entries = split(fields[3].as_str(), ',');
    let mut allowed_ips: Vec<u32> = Vec::new();
    let mut i: usize = 0;
    let ghost entry_views = split_spec(fields@[3]@, ',');
    proof {
        assert(entry_views.take(0) =~= Seq::<Seq<char>>::empty());
    }
    while i < entries.len()
        invariant
            entries@.len() == entry_views.len(),
            forall|j: int| 0 <= j < entry_views.len() ==> entries@[j]@ == entry_views[j],
            0 <= i <= entry_views.len(),
            allowed_ips@ == ips_of_entries(entry_views.take(i as int)),
        decreases entries.len() - i,
    {
        let pieces = split(entries[i].as_str(), '/');
        proof {
            assert(pieces@[0]@ == split_spec(entry_views[i as int], '/')[0]);
            assert(entry_views.take(i + 1).drop_last() =~= entry_views.take(i as int));
            assert(entry_views.take(i + 1).last() == entry_views[i as int]);
        }
        let head = trim(pieces[0].as_str());
        match parse_ipv4(head.as_str()) {
            Some(ip) => {
                allowed_ips.push(ip);
            },
            None => {},
        }
        i = i + 1;
    }
    proof {
        assert(entry_views.take(entry_views.len() as int) =~= entry_views);
        assert(allowed_ips@ == allowed_ips_of(fields@[3]@));
    }
    if allowed_ips.len() == 0 {
        return Ok(None);
    }
    let peer = RegisteredPeer { public_key: pk, preshared_key, remote_address, allowed_ips };
    Ok(Some(peer))
}

/// Reads a whole dump, as [`parse_dump_spec`] says: the peers in dump order,
/// or the one dump-format error.
#[verifier::rlimit(50)]
pub fn parse_dump(dump: &str) -> (r: Result<Vec<RegisteredPeer>, GatewayError>)
    ensures
        match r {
            Ok(peers) => parse_dump_spec(dump@) == Some(peers@.map_values(|p: RegisteredPeer| p@)),
            Err(e) => parse_dump_spec(dump@) is None && e == GatewayError::BadDump,
        },
{
    let lines = split(dump, '\n');
    let ghost line_views = split_spec(dump@, '\n').drop_first();
    let mut peers: Vec<RegisteredPeer> = Vec::new();
    let mut i: usize = 1;
    proof {
        assert(line_views.take(0) =~= Seq::<Seq<char>>::empty());
        assert(peers@.map_values(|p: RegisteredPeer| p@) =~= Seq::<PeerView>::empty());
    }
    while i < lines.len()
        invariant
            line_views == split_spec(dump@, '\n').drop_first(),
            lines@.len() == line_views.len() + 1,
            forall|j: int| 0 <= j < line_views.len() ==> lines@[j + 1]@ == line_views[j],
            1 <= i <= lines@.len(),
            parse_lines_spec(line_views.take(i - 1)) == Some(
                peers@.map_values(|p: RegisteredPeer| p@),
            ),
        decreases lines.len() - i,
    {
        proof {
            assert(line_views.take(i as int).drop_last() =~= line_views.take(i - 1));
            assert(line_views.take(i as int).last() == line_views[i - 1]);
        }
        let line = trim(lines[i].as_str());
        if line.as_str().is_empty() {
            i = i + 1;
            continue ;
        }
        match parse_line(lines[i].as_str()) {
            Ok(Some(p)) => {
                let ghost old_views = peers@.map_values(|q: RegisteredPeer| q@);
                proof {
                    assert((peers@ + seq![p]).map_values(|q: RegisteredPeer| q@) =~= old_views
                        + seq![p@]);
                    assert(old_views.push(p@) =~= old_views + seq![p@]);
                }
                peers.push(p);
            },
            Ok(None) => {},
            Err(e) => {
                proof {
                    assert(lines@[i as int]@ == line_views[i - 1]);
                    assert(trim_spec(line_views[i - 1]).len() != 0);
                    assert(parse_line_spec(line_views[i - 1]) is Bad);
                    assert(parse_lines_spec(line_views.take(i as int)) is None);
                    lemma_parse_lines_prefix_none(line_views, i as int);
                    assert(parse_lines_spec(line_views) is None);
                    assert(line_views == split_spec(dump@, '\n').drop_first());
                    assert(parse_dump_spec(dump@) is None);
                }
                return Err(e);
            },
        }
        i = i + 1;
    }
    proof {
        assert(line_views.take(lines@.len() - 1) =~= line_views);
    }
    Ok(peers)
}

/// A dump token that survives the trip through a dump line unchanged: it is
/// non-empty, holds no whitespace (so field splitting and trimming leave it
/// alone), and is not the absent-marker.
pub open spec fn plain_token(s: Seq<char>) -> bool {
    &&& s.len() > 0
    &&& s != none_marker()
    &&& forall|i: int| 0 <= i < s.len() ==> !is_space(s[i])
}

/// A peer whose dump line reads back as the peer itself: plain key tokens.
/// (The addresses always read back; nothing is asked of them.)
pub open spec fn renderable_peer(p: PeerView) -> bool {
    &&& plain_token(p.public_key)
    &&& match p.preshared_key {
        Some(k) => plain_token(k),
        None => true,
    }
}

/// The allowed-ips column: the addresses as dotted quads, comma-separated.
pub open spec fn ips_text(ips: Seq<u32>) -> Seq<char>
    decreases ips.len(),
{
    if ips.len() == 0 {
        Seq::empty()
    } else if ips.len() == 1 {
        ipv4_of(ips[0])
    } else {
        ipv4_of(ips[0]) + seq![','] + ips_text(ips.drop_first())
    }
}

/// A peer's dump line: the four fields, tab-separated, absent fields written
/// as the marker.
pub open spec fn render_line_spec(p: PeerView) -> Seq<char> {
    let psk = match p.preshared_key {
        Some(k) => k,
        None => none_marker(),
    };
    let ra = match p.remote_address {
        Some(ep) => endpoint_of(ep),
        None => none_marker(),
    };
    p.public_key + seq!['\t'] + psk + seq!['\t'] + ra + seq!['\t'] + ips_text(p.allowed_ips)
}

/// The peer lines of a dump, each preceded by the newline that separates it
/// from what stands before.
pub open spec fn lines_text(peers: Seq<PeerView>) -> Seq<char>
    decreases peers.len(),
{
    if peers.len() == 0 {
        Seq::empty()
    } else {
        seq!['\n'] + render_line_spec(peers[0]) + lines_text(peers.drop_first())
    }
}

/// A whole dump: the interface line, then one line per peer.
pub open spec fn render_dump_spec(iface: Seq<char>, peers: Seq<PeerView>) -> Seq<char> {
    iface + lines_text(peers)
}

/// The peers that a dump keeps: those with at least one allowed address, in
/// order.
pub open spec fn kept_peers(peers: Seq<PeerView>) -> Seq<PeerView>
    decreases peers.len(),
{
    if peers.len() == 0 {
        Seq::empty()
    } else if peers[0].allowed_ips.len() > 0 {
        seq![peers[0]] + kept_peers(peers.drop_first())
    } else {
        kept_peers(peers.drop_first())
    }
}

/// No character of the absent-marker is whitespace or a newline or a tab.
proof fn lemma_marker_chars()
    ensures
        forall|i: int| 0 <= i < none_marker().len() ==> !is_space(none_marker()[i]),
{
    assert forall|i: int| 0 <= i < none_marker().len() implies !is_space(none_marker()[i]) by {
        if i == 0 {
        } else if i == 1 {
        } else if i == 2 {
        } else if i == 3 {
        } else if i == 4 {
        } else {
            assert(i == 5);
        }
    }
}

/// Trimming a string without whitespace leaves it unchanged.
proof fn lemma_trim_id(s: Seq<char>)
    requires
        forall|i: int| 0 <= i < s.len() ==> !is_space(s[i]),
    ensures
        trim_spec(s) == s,
{
    lemma_leading_spaces_bounds(s);
    lemma_trailing_spaces_bounds(s);
    if s.len() == 0 {
        assert(trim_spec(s) =~= s);
    } else {
        assert(no_surrounding_spaces(s));
        assert(trim_spec(s) =~= s);
    }
}

/// A named form of "no whitespace at either end", to keep the proof above
/// readable.
spec fn no_surrounding_spaces(s: Seq<char>) -> bool {
    crate::text::leading_spaces(s) == 0 && crate::text::trailing_spaces(s) == 0
}

/// A string that opens with a non-space keeps something after trimming.
proof fn lemma_trim_keeps_head(s: Seq<char>)
    requires
        s.len() > 0,
        !is_space(s[0]),
    ensures
        trim_spec(s).len() > 0,
{
    lemma_leading_spaces_bounds(s);
    lemma_trailing_spaces_bounds(s);
    let tr = crate::text::trailing_spaces(s);
    if tr == s.len() {
        assert(is_space(s[0]));
    }
}

/// The characters of an address column: digits, dots and commas only.
proof fn lemma_ips_text_chars(ips: Seq<u32>)
    ensures
        forall|i: int| 0 <= i < ips_text(ips).len() ==> (is_digit(ips_text(ips)[i]) || ips_text(
            ips,
        )[i] == '.' || ips_text(ips)[i] == ','),
    decreases ips.len(),
{
    if ips.len() == 1 {
        crate::ip::lemma_ipv4_chars(ips[0]);
    } else if ips.len() > 1 {
        crate::ip::lemma_ipv4_chars(ips[0]);
        lemma_ips_text_chars(ips.drop_first());
        let a = ipv4_of(ips[0]);
        let rest = ips_text(ips.drop_first());
        let t = ips_text(ips);
        assert forall|i: int| 0 <= i < t.len() implies (is_digit(t[i]) || t[i] == '.' || t[i]
            == ',') by {
            if i < a.len() {
                assert(t[i] == a[i]);
            } else if i == a.len() {
                assert(t[i] == ',');
            } else {
                assert(t[i] == rest[i - a.len() - 1]);
            }
        }
    }
}

/// Reading the addresses out of a sequence of entries, from the front.
proof fn lemma_ips_front(entries: Seq<Seq<char>>)
    requires
        entries.len() > 0,
    ensures
        ips_of_entries(entries) == (match ip_of_entry(entries[0]) {
            Some(ip) => seq![ip] + ips_of_entries(entries.drop_first()),
            None => ips_of_entries(entries.drop_first()),
        }),
    decreases entries.len(),
{
    if entries.len() == 1 {
        assert(entries.drop_last() =~= Seq::<Seq<char>>::empty());
        assert(entries.drop_first() =~= Seq::<Seq<char>>::empty());
        assert(entries.last() == entries[0]);
        match ip_of_entry(entries[0]) {
            Some(ip) => {
                assert(ips_of_entries(entries) =~= seq![ip] + ips_of_entries(
                    entries.drop_first(),
                ));
            },
            None => {},
        }
    } else {
        let d = entries.drop_last();
        lemma_ips_front(d);
        assert(d[0] == entries[0]);
        assert(entries.drop_first().drop_last() =~= d.drop_first());
        assert(entries.drop_first().last() == entries.last());
        match ip_of_entry(entries[0]) {
            Some(ip0) => {
                match ip_of_entry(entries.last()) {
                    Some(ipl) => {
                        assert((seq![ip0] + ips_of_entries(d.drop_first())).push(ipl) =~= seq![ip0]
                            + ips_of_entries(d.drop_first()).push(ipl));
                    },
                    None => {},
                }
            },
            None => {},
        }
    }
}

/// Reading lines from the front.
proof fn lemma_parse_lines_front(lines: Seq<Seq<char>>)
    requires
        lines.len() > 0,
    ensures
        parse_lines_spec(lines) == ({
            let rest = parse_lines_spec(lines.drop_first());
            if trim_spec(lines[0]).len() == 0 {
                rest
            } else {
                match parse_line_spec(lines[0]) {
                    LineOutcome::Bad => None,
                    LineOutcome::Skip => rest,
                    LineOutcome::Peer(p) => match rest {
                        None => None,
                        Some(acc) => Some(seq![p] + acc),
                    },
                }
            }
        }),
    decreases lines.len(),
{
    if lines.len() == 1 {
        assert(lines.drop_last() =~= Seq::<Seq<char>>::empty());
        assert(lines.drop_first() =~= Seq::<Seq<char>>::empty());
        assert(lines.last() == lines[0]);
        match parse_line_spec(lines[0]) {
            LineOutcome::Peer(p) => {
                if trim_spec(lines[0]).len() != 0 {
                    assert(Seq::<PeerView>::empty().push(p) =~= seq![p]
                        + Seq::<PeerView>::empty());
                }
            },
            _ => {},
        }
    } else {
        let d = lines.drop_last();
        lemma_parse_lines_front(d);
        assert(d[0] == lines[0]);
        assert(lines.drop_first().drop_last() =~= d.drop_first());
        assert(lines.drop_first().last() == lines.last());
        match parse_lines_spec(d.drop_first()) {
            None => {},
            Some(acc_rest) => {
                if trim_spec(lines[0]).len() != 0 {
                    match parse_line_spec(lines[0]) {
                        LineOutcome::Peer(p) => {
                            if trim_spec(lines.last()).len() != 0 {
                                match parse_line_spec(lines.last()) {
                                    LineOutcome::Peer(q) => {
                                        assert((seq![p] + acc_rest).push(q) =~= seq![p]
                                            + acc_rest.push(q));
                                    },
                                    _ => {},
                                }
                            }
                        },
                        _ => {},
                    }
                }
            },
        }
    }
}

/// One allowed-ips entry written as a dotted quad reads back as its address.
proof fn lemma_entry_roundtrip(ip: u32)
    ensures
        ip_of_entry(ipv4_of(ip)) == Some(ip),
{
    crate::ip::lemma_ipv4_chars(ip);
    let e = ipv4_of(ip);
    assert forall|i: int| 0 <= i < e.len() implies e[i] != '/' by {
        assert(is_digit(e[i]) || e[i] == '.');
    }
    lemma_split_single(e, '/');
    assert(split_spec(e, '/')[0] == e);
    assert forall|i: int| 0 <= i < e.len() implies !is_space(e[i]) by {
        assert(is_digit(e[i]) || e[i] == '.');
    }
    lemma_trim_id(e);
    lemma_ipv4_roundtrip(ip);
}

/// The allowed-ips column reads back as the addresses it was written from.
pub proof fn lemma_ips_roundtrip(ips: Seq<u32>)
    ensures
        allowed_ips_of(ips_text(ips)) == ips,
    decreases ips.len(),
{
    if ips.len() == 0 {
        let entries = split_spec(Seq::<char>::empty(), ',');
        assert(entries =~= seq![Seq::<char>::empty()]);
        assert(entries.drop_last() =~= Seq::<Seq<char>>::empty());
        let empty = Seq::<char>::empty();
        assert(split_spec(empty, '/') =~= seq![empty]);
        lemma_trim_id(empty);
        assert(split_spec(empty, '.') =~= seq![empty]);
        assert(ip_of_entry(empty) is None);
        assert(entries.last() == empty);
        assert(ips_of_entries(Seq::<Seq<char>>::empty()) =~= Seq::<u32>::empty());
        assert(entries.drop_last() == Seq::<Seq<char>>::empty());
        assert(ips_of_entries(entries) =~= Seq::<u32>::empty());
        assert(ips_text(ips) =~= empty);
        assert(allowed_ips_of(ips_text(ips)) =~= ips);
    } else if ips.len() == 1 {
        crate::ip::lemma_ipv4_chars(ips[0]);
        let e = ipv4_of(ips[0]);
        assert forall|i: int| 0 <= i < e.len() implies e[i] != ',' by {
            assert(is_digit(e[i]) || e[i] == '.');
        }
        lemma_split_single(e, ',');
        let entries = split_spec(e, ',');
        assert(entries =~= seq![e]);
        assert(entries.drop_last() =~= Seq::<Seq<char>>::empty());
        assert(entries.last() == e);
        lemma_entry_roundtrip(ips[0]);
        assert(ips_of_entries(entries) == ips_of_entries(entries.drop_last()).push(ips[0]));
        assert(ips_of_entries(entries.drop_last()) =~= Seq::<u32>::empty());
        assert(Seq::<u32>::empty().push(ips[0]) =~= ips);
        assert(allowed_ips_of(ips_text(ips)) =~= ips);
    } else {
        let e0 = ipv4_of(ips[0]);
        crate::ip::lemma_ipv4_chars(ips[0]);
        assert forall|i: int| 0 <= i < e0.len() implies e0[i] != ',' by {
            assert(is_digit(e0[i]) || e0[i] == '.');
        }
        assert(ips_text(ips) =~= e0 + seq![','] + ips_text(ips.drop_first()));
        lemma_split_prepend(e0, ips_text(ips.drop_first()), ',');
        let entries = split_spec(ips_text(ips), ',');
        assert(entries == seq![e0] + split_spec(ips_text(ips.drop_first()), ','));
        assert(entries.len() > 0);
        assert(entries[0] == e0);
        lemma_ips_front(entries);
        assert(entries.drop_first() =~= split_spec(ips_text(ips.drop_first()), ','));
        lemma_entry_roundtrip(ips[0]);
        lemma_ips_roundtrip(ips.drop_first());
        assert(seq![ips[0]] + ips.drop_first() =~= ips);
    }
}

/// A rendered peer line reads back as the peer, or as a skip when the peer
/// has no address to route.
#[verifier::rlimit(100)]
pub proof fn lemma_line_roundtrip(p: PeerView)
    requires
        renderable_peer(p),
    ensures
        parse_line_spec(render_line_spec(p)) == (if p.allowed_ips.len() == 0 {
            LineOutcome::Skip
        } else {
            LineOutcome::Peer(p)
        }),
{
    lemma_marker_chars();
    let psk = match p.preshared_key {
        Some(k) => k,
        None => none_marker(),
    };
    let ra = match p.remote_address {
        Some(ep) => endpoint_of(ep),
        None => none_marker(),
    };
    let f3 = ips_text(p.allowed_ips);
    let line = render_line_spec(p);
    // none of the four fields holds a tab
    assert forall|i: int| 0 <= i < psk.len() implies psk[i] != '\t' by {
        assert(!is_space(psk[i]));
    }
    match p.remote_address {
        Some(ep) => {
            crate::ip::lemma_endpoint_chars(ep);
            assert forall|i: int| 0 <= i < ra.len() implies ra[i] != '\t' by {
                assert(is_digit(ra[i]) || ra[i] == '.' || ra[i] == ':');
            }
            assert forall|i: int| 0 <= i < ra.len() implies !is_space(ra[i]) by {
                assert(is_digit(ra[i]) || ra[i] == '.' || ra[i] == ':');
            }
        },
        None => {
            assert forall|i: int| 0 <= i < ra.len() implies ra[i] != '\t' by {
                assert(!is_space(ra[i]));
            }
        },
    }
    lemma_ips_text_chars(p.allowed_ips);
    assert forall|i: int| 0 <= i < f3.len() implies f3[i] != '\t' by {
        assert(is_digit(f3[i]) || f3[i] == '.' || f3[i] == ',');
    }
    assert forall|i: int| 0 <= i < p.public_key.len() implies p.public_key[i] != '\t' by {
        assert(!is_space(p.public_key[i]));
    }
    // split into the four fields
    let tail_c = ra + seq!['\t'] + f3;
    let tail_b = psk + seq!['\t'] + tail_c;
    assert(line =~= p.public_key + seq!['\t'] + tail_b);
    lemma_split_prepend(p.public_key, tail_b, '\t');
    assert(tail_b =~= psk + seq!['\t'] + tail_c);
    lemma_split_prepend(psk, tail_c, '\t');
    lemma_split_prepend(ra, f3, '\t');
    lemma_split_single(f3, '\t');
    let fields = split_spec(line, '\t');
    assert(fields =~= seq![p.public_key, psk, ra, f3]);
    // each field is trim-invariant, and the key fields are not markers
    lemma_trim_id(p.public_key);
    lemma_trim_id(psk);
    match p.remote_address {
        Some(ep) => {
            lemma_trim_id(ra);
            assert(ra.len() > 0) by {
                crate::ip::lemma_endpoint_nonempty(ep);
            }
            assert(ra != none_marker()) by {
                crate::ip::lemma_endpoint_chars(ep);
                if ra == none_marker() {
                    assert(is_digit(ra[0]) || ra[0] == '.' || ra[0] == ':');
                    assert(ra[0] == '(');
                }
            }
            lemma_endpoint_roundtrip(ep);
        },
        None => {
            lemma_trim_id(ra);
        },
    }
    lemma_trim_id(f3);
    lemma_ips_roundtrip(p.allowed_ips);
    match p.preshared_key {
        Some(k) => {
            assert(norm_opt(trim_spec(psk)) == Some(k));
        },
        None => {},
    }
}

/// No character of a rendered peer line is a newline, and the line does not
/// trim away to nothing.
proof fn lemma_render_line_chars(p: PeerView)
    requires
        renderable_peer(p),
    ensures
        forall|i: int| 0 <= i < render_line_spec(p).len() ==> render_line_spec(p)[i] != '\n',
        trim_spec(render_line_spec(p)).len() > 0,
{
    lemma_marker_chars();
    let psk = match p.preshared_key {
        Some(k) => k,
        None => none_marker(),
    };
    let ra = match p.remote_address {
        Some(ep) => endpoint_of(ep),
        None => none_marker(),
    };
    let f3 = ips_text(p.allowed_ips);
    let line = render_line_spec(p);
    lemma_ips_text_chars(p.allowed_ips);
    match p.remote_address {
        Some(ep) => {
            crate::ip::lemma_endpoint_chars(ep);
        },
        None => {},
    }
    assert forall|i: int| 0 <= i < line.len() implies line[i] != '\n' by {
        let pkl = p.public_key.len() as int;
        let pskl = psk.len() as int;
        let ral = ra.len() as int;
        if i < pkl {
            assert(line[i] == p.public_key[i]);
            assert(!is_space(p.public_key[i]));
        } else if i == pkl {
            assert(line[i] == '\t');
        } else if i < pkl + 1 + pskl {
            assert(line[i] == psk[i - pkl - 1]);
            match p.preshared_key {
                Some(_) => {
                    assert(!is_space(psk[i - pkl - 1]));
                },
                None => {
                    assert(!is_space(psk[i - pkl - 1]));
                },
            }
        } else if i == pkl + 1 + pskl {
            assert(line[i] == '\t');
        } else if i < pkl + 1 + pskl + 1 + ral {
            let j = i - pkl - 1 - pskl - 1;
            assert(line[i] == ra[j]);
            match p.remote_address {
                Some(_) => {
                    assert(is_digit(ra[j]) || ra[j] == '.' || ra[j] == ':');
                },
                None => {
                    assert(!is_space(ra[j]));
                },
            }
        } else if i == pkl + 1 + pskl + 1 + ral {
            assert(line[i] == '\t');
        } else {
            let j = i - pkl - 1 - pskl - 1 - ral - 1;
            assert(line[i] == f3[j]);
            assert(is_digit(f3[j]) || f3[j] == '.' || f3[j] == ',');
        }
    }
    assert(line[0] == p.public_key[0]);
    lemma_trim_keeps_head(line);
}

/// Splitting a rendered dump on newlines gives the interface line and then
/// each peer line.
proof fn lemma_split_dump(iface: Seq<char>, peers: Seq<PeerView>)
    requires
        forall|j: int| 0 <= j < iface.len() ==> iface[j] != '\n',
        forall|i: int| 0 <= i < peers.len() ==> renderable_peer(#[trigger] peers[i]),
    ensures
        split_spec(render_dump_spec(iface, peers), '\n') == seq![iface] + peers.map_values(
            |p: PeerView| render_line_spec(p),
        ),
    decreases peers.len(),
{
    if peers.len() == 0 {
        assert(render_dump_spec(iface, peers) =~= iface);
        lemma_split_single(iface, '\n');
        assert(seq![iface] + peers.map_values(|p: PeerView| render_line_spec(p)) =~= seq![iface]);
    } else {
        let line0 = render_line_spec(peers[0]);
        let rest = peers.drop_first();
        lemma_render_line_chars(peers[0]);
        assert(render_dump_spec(iface, peers) =~= iface + seq!['\n'] + render_dump_spec(
            line0,
            rest,
        ));
        lemma_split_prepend(iface, render_dump_spec(line0, rest), '\n');
        assert forall|i: int| 0 <= i < rest.len() implies renderable_peer(#[trigger] rest[i]) by {
            assert(rest[i] == peers[i + 1]);
        }
        lemma_split_dump(line0, rest);
        assert(seq![iface] + (seq![line0] + rest.map_values(|p: PeerView| render_line_spec(p)))
            =~= seq![iface] + peers.map_values(|p: PeerView| render_line_spec(p)));
    }
}

/// Rendered peer lines read back as the peers that have an address; the rest
/// are dropped.
proof fn lemma_parse_rendered_lines(peers: Seq<PeerView>)
    requires
        forall|i: int| 0 <= i < peers.len() ==> renderable_peer(#[trigger] peers[i]),
    ensures
        parse_lines_spec(peers.map_values(|p: PeerView| render_line_spec(p))) == Some(
            kept_peers(peers),
        ),
    decreases peers.len(),
{
    let lines = peers.map_values(|p: PeerView| render_line_spec(p));
    if peers.len() == 0 {
        assert(lines =~= Seq::<Seq<char>>::empty());
    } else {
        lemma_parse_lines_front(lines);
        assert(lines[0] == render_line_spec(peers[0]));
        assert(lines.drop_first() =~= peers.drop_first().map_values(
            |p: PeerView| render_line_spec(p),
        ));
        assert forall|i: int|
            0 <= i < peers.drop_first().len() implies renderable_peer(
            #[trigger] peers.drop_first()[i],
        ) by {
            assert(peers.drop_first()[i] == peers[i + 1]);
        }
        lemma_parse_rendered_lines(peers.drop_first());
        lemma_render_line_chars(peers[0]);
        lemma_line_roundtrip(peers[0]);
    }
}

/// The dump round trip: a dump written for a sequence of peers reads back as
/// exactly the peers that have an allowed address, in order; peers without
/// one are dropped.
pub proof fn lemma_dump_roundtrip(iface: Seq<char>, peers: Seq<PeerView>)
    requires
        forall|j: int| 0 <= j < iface.len() ==> iface[j] != '\n',
        forall|i: int| 0 <= i < peers.len() ==> renderable_peer(#[trigger] peers[i]),
    ensures
        parse_dump_spec(render_dump_spec(iface, peers)) == Some(kept_peers(peers)),
{
    lemma_split_dump(iface, peers);
    let lines = peers.map_values(|p: PeerView| render_line_spec(p));
    assert((seq![iface] + lines).drop_first() =~= lines);
    lemma_parse_rendered_lines(peers);
}

/// Every peer a dump reading keeps has at least one allowed address.
pub proof fn lemma_parsed_peers_nonempty(lines: Seq<Seq<char>>)
    ensures
        match parse_lines_spec(lines) {
            Some(ps) => forall|i: int|
                0 <= i < ps.len() ==> (#[trigger] ps[i]).allowed_ips.len() > 0,
            None => true,
        },
    decreases lines.len(),
{
    if lines.len() > 0 {
        lemma_parsed_peers_nonempty(lines.drop_last());
        match parse_lines_spec(lines.drop_last()) {
            Some(acc) => {
                if trim_spec(lines.last()).len() != 0 {
                    match parse_line_spec(lines.last()) {
                        LineOutcome::Peer(p) => {
                            assert(p.allowed_ips.len() > 0);
                            assert forall|i: int|
                                0 <= i < acc.push(p).len() implies (#[trigger] acc.push(
                                p,
                            )[i]).allowed_ips.len() > 0 by {
                                if i < acc.len() {
                                    assert(acc.push(p)[i] == acc[i]);
                                }
                            }
                        },
                        _ => {},
                    }
                }
            },
            None => {},
        }
    }
}

/// Renders one peer as its dump line.
pub fn render_peer_line(p: &RegisteredPeer) -> (r: String)
    ensures
        r@ == render_line_spec(p@),
{
    proof {
        reveal_strlit("\t");
        reveal_strlit("(none)");
        assert("\t"@ =~= seq!['\t']);
        assert("(none)"@ =~= none_marker());
    }
    let mut out = p.public_key.clone();
    out.append("\t");
    match &p.preshared_key {
        Some(k) => out.append(k.as_str()),
        None => out.append("(none)"),
    }
    out.append("\t");
    match &p.remote_address {
        Some(ep) => out.append(endpoint_to_string(ep).as_str()),
        None => out.append("(none)"),
    }
    out.append("\t");
    let n = p.allowed_ips.len();
    let mut i: usize = 0;
    let mut ips = String::new();
    proof {
        reveal_strlit(",");
        assert(","@ =~= seq![',']);
        assert(ips@ =~= ips_text(p.allowed_ips@.take(0)));
    }
    while i < n
        invariant
            n == p.allowed_ips@.len(),
            0 <= i <= n,
            ips@ == ips_text(p.allowed_ips@.take(i as int)),
            ","@ =~= seq![','],
        decreases n - i,
    {
        if i > 0 {
            ips.append(",");
        }
        ips.append(ipv4_to_string(p.allowed_ips[i]).as_str());
        proof {
            lemma_ips_text_snoc(p.allowed_ips@.take(i as int), p.allowed_ips@[i as int]);
            assert(p.allowed_ips@.take(i + 1) =~= p.allowed_ips@.take(i as int).push(
                p.allowed_ips@[i as int],
            ));
        }
        i = i + 1;
    }
    proof {
        assert(p.allowed_ips@.take(n as int) =~= p.allowed_ips@);
    }
    out.append(ips.as_str());
    proof {
        assert(out@ =~= render_line_spec(p@));
    }
    out
}

/// Appending one address to the column puts it at the end, after a comma if
/// anything stands before.
proof fn lemma_ips_text_snoc(ips: Seq<u32>, ip: u32)
    ensures
        ips.len() == 0 ==> ips_text(ips.push(ip)) == ipv4_of(ip),
        ips.len() > 0 ==> ips_text(ips.push(ip)) == ips_text(ips) + seq![','] + ipv4_of(ip),
    decreases ips.len(),
{
    let t = ips.push(ip);
    if ips.len() == 0 {
        assert(t.len() == 1);
        assert(t[0] == ip);
    } else {
        assert(t[0] == ips[0]);
        assert(t.drop_first() =~= ips.drop_first().push(ip));
        lemma_ips_text_snoc(ips.drop_first(), ip);
        if ips.len() == 1 {
            assert(ips.drop_first().len() == 0);
            assert(ips_text(t) =~= ipv4_of(ips[0]) + seq![','] + ipv4_of(ip));
            assert(ips_text(ips) == ipv4_of(ips[0]));
        } else {
            assert(ips_text(t) =~= ipv4_of(t[0]) + seq![','] + ips_text(t.drop_first()));
            assert(ips_text(ips) + seq![','] + ipv4_of(ip) =~= ipv4_of(ips[0]) + seq![','] + (
            ips_text(ips.drop_first()) + seq![','] + ipv4_of(ip)));
        }
    }
}

/// Renders a whole dump: the interface line, then one line per peer.
pub fn render_dump(iface: &str, peers: &Vec<RegisteredPeer>) -> (r: String)
    ensures
        r@ == render_dump_spec(iface@, peers@.map_values(|p: RegisteredPeer| p@)),
{
    let mut out = iface.to_owned();
    let n = peers.len();
    let mut i: usize = 0;
    proof {
        reveal_strlit("\n");
        assert("\n"@ =~= seq!['\n']);
        assert(out@ =~= render_dump_spec(
            iface@,
            peers@.take(0).map_values(|p: RegisteredPeer| p@),
        )) by {
            assert(peers@.take(0).map_values(|p: RegisteredPeer| p@)
                =~= Seq::<PeerView>::empty());
        }
    }
    while i < n
        invariant
            n == peers@.len(),
            0 <= i <= n,
            out@ == render_dump_spec(iface@, peers@.take(i as int).map_values(
                |p: RegisteredPeer| p@,
            )),
            "\n"@ =~= seq!['\n'],
        decreases n - i,
    {
        out.append("\n");
        out.append(render_peer_line(&peers[i]).as_str());
        proof {
            lemma_lines_text_snoc(
                peers@.take(i as int).map_values(|p: RegisteredPeer| p@),
                peers@[i as int]@,
            );
            assert(peers@.take(i + 1).map_values(|p: RegisteredPeer| p@) =~= peers@.take(
                i as int,
            ).map_values(|p: RegisteredPeer| p@).push(peers@[i as int]@));
        }
        i = i + 1;
    }
    proof {
        assert(peers@.take(n as int) =~= peers@);
    }
    out
}

/// Appending a peer adds its line at the end of the dump text.
proof fn lemma_lines_text_snoc(peers: Seq<PeerView>, p: PeerView)
    ensures
        lines_text(peers.push(p)) == lines_text(peers) + seq!['\n'] + render_line_spec(p),
    decreases peers.len(),
{
    let t = peers.push(p);
    if peers.len() == 0 {
        assert(t.drop_first() =~= Seq::<PeerView>::empty());
        assert(t[0] == p);
        assert(lines_text(t) =~= lines_text(peers) + seq!['\n'] + render_line_spec(p));
    } else {
        assert(t[0] == peers[0]);
        assert(t.drop_first() =~= peers.drop_first().push(p));
        lemma_lines_text_snoc(peers.drop_first(), p);
        assert(lines_text(t) == seq!['\n'] + render_line_spec(peers[0]) + lines_text(
            t.drop_first(),
        ));
        assert(lines_text(t.drop_first()) == lines_text(peers.drop_first()) + seq!['\n']
            + render_line_spec(p));
        assert(lines_text(peers) == seq!['\n'] + render_line_spec(peers[0]) + lines_text(
            peers.drop_first(),
        ));
        assert(seq!['\n'] + render_line_spec(peers[0]) + (lines_text(peers.drop_first())
            + seq!['\n'] + render_line_spec(p)) =~= (seq!['\n'] + render_line_spec(peers[0])
            + lines_text(peers.drop_first())) + seq!['\n'] + render_line_spec(p));
    }
}

/// Reads an allowed-ips column: the addresses, unreadable entries skipped.
pub fn parse_allowed_ips(field: &str) -> (r: Vec<u32>)
    ensures
        r@ == allowed_ips_of(field@),
{
    let entries = split(field, ',');
    let mut allowed_ips: Vec<u32> = Vec::new();
    let mut i: usize = 0;
    let ghost entry_views = split_spec(field@, ',');
    proof {
        assert(entry_views.take(0) =~= Seq::<Seq<char>>::empty());
    }
    while i < entries.len()
        invariant
            entry_views == split_spec(field@, ','),
            entries@.len() == entry_views.len(),
            forall|j: int| 0 <= j < entry_views.len() ==> entries@[j]@ == entry_views[j],
            0 <= i <= entry_views.len(),
            allowed_ips@ == ips_of_entries(entry_views.take(i as int)),
        decreases entries.len() - i,
    {
        let pieces = split(entries[i].as_str(), '/');
        proof {
            assert(pieces@[0]@ == split_spec(entry_views[i as int], '/')[0]);
            assert(entry_views.take(i + 1).drop_last() =~= entry_views.take(i as int));
            assert(entry_views.take(i + 1).last() == entry_views[i as int]);
        }
        let head = trim(pieces[0].as_str());
        match parse_ipv4(head.as_str()) {
            Some(ip) => {
                allowed_ips.push(ip);
            },
            None => {},
        }
        i = i + 1;
    }
    proof {
        assert(entry_views.take(entry_views.len() as int) =~= entry_views);
    }
    allowed_ips
}

/// Renders addresses as one comma-joined column of dotted quads.
pub fn ips_to_string(ips: &Vec<u32>) -> (r: String)
    ensures
        r@ == ips_text(ips@),
{
    let n = ips.len();
    let mut i: usize = 0;
    let mut out = String::new();
    proof {
        reveal_strlit(",");
        assert(","@ =~= seq![',']);
        assert(out@ =~= ips_text(ips@.take(0)));
    }
    while i < n
        invariant
            n == ips@.len(),
            0 <= i <= n,
            out@ == ips_text(ips@.take(i as int)),
            ","@ =~= seq![','],
        decreases n - i,
    {
        if i > 0 {
            out.append(",");
        }
        out.append(ipv4_to_string(ips[i]).as_str());
        proof {
            lemma_ips_text_snoc(ips@.take(i as int), ips@[i as int]);
            assert(ips@.take(i + 1) =~= ips@.take(i as int).push(ips@[i as int]));
        }
        i = i + 1;
    }
    proof {
        assert(ips@.take(n as int) =~= ips@);
    }
    out
}

} // verus!
