//! The directory's persistence format: one JSON document with the two
//! indices and the controller's state, written canonically — no spare
//! whitespace, entries in map order — and read back by a strict parser for
//! exactly that canonical shape. Writing then reading gives the directory
//! back unchanged; the proof runs through every production.
//!
//! Strings are written with `"` and `\` escaped; other characters stand as
//! themselves.

use vstd::prelude::*;

use crate::dump::{allowed_ips_of, ips_text, ips_to_string, lemma_ips_roundtrip, parse_allowed_ips};
use crate::ip::{endpoint_of, endpoint_to_string, ipv4_of, ipv4_to_string, lemma_endpoint_roundtrip, parse_endpoint, parse_endpoint_spec, parse_ipv4_spec, Endpoint};
use crate::errors::GatewayError;
use crate::ipmap::IpMap;
use crate::strmap::StrMap;
use crate::vpn::Vpn;
use crate::peer::{PeerInfo, PeerInfoView, PeerView, RegisteredPeer};
use crate::proxy_db::ProxyDb;

verus! {

/// How one character is written inside a JSON string.
pub open spec fn esc_char(c: char) -> Seq<char> {
    if c == '"' {
        seq!['\\', '"']
    } else if c == '\\' {
        seq!['\\', '\\']
    } else {
        seq![c]
    }
}

/// A text with its quotes and backslashes escaped.
pub open spec fn escape(s: Seq<char>) -> Seq<char>
    decreases s.len(),
{
    if s.len() == 0 {
        Seq::empty()
    } else {
        esc_char(s[0]) + escape(s.drop_first())
    }
}

/// A quoted, escaped JSON string.
pub open spec fn render_string(s: Seq<char>) -> Seq<char> {
    seq!['"'] + escape(s) + seq!['"']
}

/// Reads a string body up to its closing quote: a backslash takes the next
/// character literally. Yields the content and what follows the quote.
pub open spec fn scan_string(s: Seq<char>) -> Option<(Seq<char>, Seq<char>)>
    decreases s.len(),
{
    if s.len() == 0 {
        None
    } else if s[0] == '"' {
        Some((Seq::empty(), s.drop_first()))
    } else if s[0] == '\\' {
        if s.len() < 2 {
            None
        } else {
            match scan_string(s.skip(2)) {
                Some((content, rest)) => Some((seq![s[1]] + content, rest)),
                None => None,
            }
        }
    } else {
        match scan_string(s.drop_first()) {
            Some((content, rest)) => Some((seq![s[0]] + content, rest)),
            None => None,
        }
    }
}

/// Reads a whole JSON string, opening quote first.
pub open spec fn parse_string_spec(s: Seq<char>) -> Option<(Seq<char>, Seq<char>)> {
    if s.len() > 0 && s[0] == '"' {
        scan_string(s.drop_first())
    } else {
        None
    }
}

/// Appending one character to a text appends its escape to the rendering.
proof fn lemma_escape_snoc(s: Seq<char>, c: char)
    ensures
        escape(s.push(c)) == escape(s) + esc_char(c),
    decreases s.len(),
{
    let t = s.push(c);
    if s.len() == 0 {
        assert(t[0] == c);
        assert(t.drop_first() =~= Seq::<char>::empty());
        assert(escape(Seq::<char>::empty()) =~= Seq::<char>::empty());
        assert(escape(t) == esc_char(c) + escape(Seq::<char>::empty()));
        assert(esc_char(c) + Seq::<char>::empty() =~= esc_char(c));
        assert(escape(s) + esc_char(c) =~= esc_char(c));
        assert(escape(t) =~= escape(s) + esc_char(c));
    } else {
        assert(t[0] == s[0]);
        assert(t.drop_first() =~= s.drop_first().push(c));
        lemma_escape_snoc(s.drop_first(), c);
        assert(escape(t) =~= escape(s) + esc_char(c));
    }
}

/// Scanning undoes escaping: the escaped text, a closing quote and anything
/// after scan back as the text and that rest.
proof fn lemma_scan_roundtrip(x: Seq<char>, rest: Seq<char>)
    ensures
        scan_string(escape(x) + seq!['"'] + rest) == Some((x, rest)),
    decreases x.len(),
{
    let whole = escape(x) + seq!['"'] + rest;
    if x.len() == 0 {
        assert(whole[0] == '"');
        assert(whole.drop_first() =~= rest);
    } else {
        lemma_scan_roundtrip(x.drop_first(), rest);
        let tail = escape(x.drop_first()) + seq!['"'] + rest;
        if x[0] == '"' || x[0] == '\\' {
            assert(whole[0] == '\\');
            assert(whole[1] == x[0]);
            assert(whole.len() >= 2);
            assert(whole.skip(2) =~= tail);
            assert(seq![x[0]] + x.drop_first() =~= x);
        } else {
            assert(whole[0] == x[0]);
            assert(whole.drop_first() =~= tail);
            assert(seq![x[0]] + x.drop_first() =~= x);
        }
    }
}

/// The string round trip, quotes included.
pub proof fn lemma_string_roundtrip(x: Seq<char>, rest: Seq<char>)
    ensures
        parse_string_spec(render_string(x) + rest) == Some((x, rest)),
{
    let whole = render_string(x) + rest;
    assert(whole[0] == '"');
    assert(whole.drop_first() =~= escape(x) + seq!['"'] + rest);
    lemma_scan_roundtrip(x, rest);
}

/// Appends the quoted, escaped form of `s`.
pub fn append_json_string(out: &mut String, s: &str)
    ensures
        final(out)@ == old(out)@ + render_string(s@),
{
    proof {
        reveal_strlit("\"");
        reveal_strlit("\\\"");
        reveal_strlit("\\\\");
        assert("\""@ =~= seq!['"']);
        assert("\\\""@ =~= seq!['\\', '"']);
        assert("\\\\"@ =~= seq!['\\', '\\']);
    }
    out.append("\"");
    let n = s.unicode_len();
    let mut i: usize = 0;
    proof {
        assert(escape(s@.take(0)) =~= Seq::<char>::empty());
        assert(out@ =~= old(out)@ + seq!['"'] + escape(s@.take(0)));
    }
    while i < n
        invariant
            n == s@.len(),
            0 <= i <= n,
            out@ == old(out)@ + seq!['"'] + escape(s@.take(i as int)),
            "\""@ =~= seq!['"'],
            "\\\""@ =~= seq!['\\', '"'],
            "\\\\"@ =~= seq!['\\', '\\'],
        decreases n - i,
    {
        let c = s.get_char(i);
        proof {
            lemma_escape_snoc(s@.take(i as int), s@[i as int]);
            assert(s@.take(i + 1) =~= s@.take(i as int).push(s@[i as int]));
        }
        if c == '"' {
            out.append("\\\"");
        } else if c == '\\' {
            out.append("\\\\");
        } else {
            let piece = s.substring_char(i, i + 1);
            proof {
                assert(piece@ =~= seq![s@[i as int]]);
                assert(esc_char(s@[i as int]) =~= seq![s@[i as int]]);
            }
            out.append(piece);
        }
        i = i + 1;
    }
    proof {
        assert(s@.take(n as int) =~= s@);
    }
    out.append("\"");
}

/// Reads the JSON string starting at `pos`; on success the content and the
/// position just past the closing quote.
pub fn parse_json_string(s: &str, pos: usize) -> (r: Option<(String, usize)>)
    requires
        pos <= s@.len(),
    ensures
        match r {
            Some((v, p2)) => pos < p2 <= s@.len() && parse_string_spec(s@.skip(pos as int))
                == Some((v@, s@.skip(p2 as int))),
            None => parse_string_spec(s@.skip(pos as int)) is None,
        },
{
    let n = s.unicode_len();
    if pos >= n || s.get_char(pos) != '"' {
        proof {
            if pos < n {
                assert(s@.skip(pos as int)[0] == s@[pos as int]);
            }
        }
        return None;
    }
    let mut content = String::new();
    let mut i: usize = pos + 1;
    proof {
        assert(s@.skip(pos as int)[0] == s@[pos as int]);
        assert(s@.skip(pos as int).drop_first() =~= s@.skip(pos + 1));
    }
    loop
        invariant
            n == s@.len(),
            pos + 1 <= i <= n,
            parse_string_spec(s@.skip(pos as int)) == (match scan_string(s@.skip(i as int)) {
                Some((c2, rest)) => Some::<(Seq<char>, Seq<char>)>((content@ + c2, rest)),
                None => None::<(Seq<char>, Seq<char>)>,
            }),
        decreases n - i,
    {
        if i >= n {
            proof {
                assert(s@.skip(i as int) =~= Seq::<char>::empty());
            }
            return None;
        }
        let c = s.get_char(i);
        proof {
            assert(s@.skip(i as int)[0] == s@[i as int]);
            assert(s@.skip(i as int).drop_first() =~= s@.skip(i + 1));
        }
        if c == '"' {
            proof {
                assert(content@ + Seq::<char>::empty() =~= content@);
            }
            return Some((content, i + 1));
        } else if c == '\\' {
            if i + 1 >= n {
                return None;
            }
            let piece = s.substring_char(i + 1, i + 2);
            let ghost content_before = content@;
            proof {
                assert(piece@ =~= seq![s@[i + 1]]);
                assert(s@.skip(i as int).skip(2) =~= s@.skip(i + 2));
            }
            content.append(piece);
            proof {
                match scan_string(s@.skip(i + 2)) {
                    Some((c2, rest)) => {
                        assert(content_before + (seq![s@[i + 1]] + c2) =~= content@ + c2);
                    },
                    None => {},
                }
            }
            i = i + 2;
        } else {
            let piece = s.substring_char(i, i + 1);
            let ghost content_before = content@;
            proof {
                assert(piece@ =~= seq![s@[i as int]]);
            }
            content.append(piece);
            proof {
                match scan_string(s@.skip(i + 1)) {
                    Some((c2, rest)) => {
                        assert(content_before + (seq![s@[i as int]] + c2) =~= content@ + c2);
                    },
                    None => {},
                }
            }
            i = i + 1;
        }
    }
}

/// Consumes an exact literal prefix.
pub open spec fn expect_lit(s: Seq<char>, lit: Seq<char>) -> Option<Seq<char>> {
    if s.len() >= lit.len() && s.take(lit.len() as int) == lit {
        Some(s.skip(lit.len() as int))
    } else {
        None
    }
}

/// A literal prefix is consumed exactly.
pub proof fn lemma_expect_lit(lit: Seq<char>, rest: Seq<char>)
    ensures
        expect_lit(lit + rest, lit) == Some(rest),
{
    assert((lit + rest).take(lit.len() as int) =~= lit);
    assert((lit + rest).skip(lit.len() as int) =~= rest);
}

/// A successful string read consumes at least the two quotes.
proof fn lemma_scan_shrinks(s: Seq<char>)
    ensures
        match scan_string(s) {
            Some((c, rest)) => rest.len() < s.len(),
            None => true,
        },
    decreases s.len(),
{
    if s.len() > 0 && s[0] != '"' {
        if s[0] == '\\' {
            if s.len() >= 2 {
                lemma_scan_shrinks(s.skip(2));
            }
        } else {
            lemma_scan_shrinks(s.drop_first());
        }
    }
}

/// A successful string read leaves a strictly shorter rest.
pub proof fn lemma_parse_string_shrinks(s: Seq<char>)
    ensures
        match parse_string_spec(s) {
            Some((c, rest)) => rest.len() < s.len(),
            None => true,
        },
{
    if s.len() > 0 && s[0] == '"' {
        lemma_scan_shrinks(s.drop_first());
    }
}

/// An optional string: `null`, or a quoted string.
pub open spec fn parse_opt_string_spec(s: Seq<char>) -> Option<(Option<Seq<char>>, Seq<char>)> {
    match expect_lit(s, "null"@) {
        Some(rest) => Some((None, rest)),
        None => match parse_string_spec(s) {
            Some((v, rest)) => Some((Some(v), rest)),
            None => None,
        },
    }
}

/// The rendering of an optional string.
pub open spec fn render_opt_string(v: Option<Seq<char>>) -> Seq<char> {
    match v {
        None => "null"@,
        Some(x) => render_string(x),
    }
}

/// The optional-string round trip.
pub proof fn lemma_opt_string_roundtrip(v: Option<Seq<char>>, rest: Seq<char>)
    ensures
        parse_opt_string_spec(render_opt_string(v) + rest) == Some((v, rest)),
{
    reveal_strlit("null");
    match v {
        None => {
            lemma_expect_lit("null"@, rest);
        },
        Some(x) => {
            let whole = render_string(x) + rest;
            assert(whole[0] == '"');
            // a string never opens like the null literal
            if whole.len() >= 4 && whole.take(4) == "null"@ {
                assert(whole.take(4)[0] == 'n');
            }
            lemma_string_roundtrip(x, rest);
        },
    }
}

/// The entries of an object whose values are strings: at least one
/// `"key":"value"` pair, comma-separated, up to the closing brace.
pub open spec fn scan_pairs(s: Seq<char>) -> Option<(Seq<(Seq<char>, Seq<char>)>, Seq<char>)>
    decreases s.len(),
    when true
    via scan_pairs_decreases
{
    match parse_string_spec(s) {
        None => None,
        Some((k, r1)) => {
            if r1.len() == 0 || r1[0] != ':' {
                None
            } else {
                match parse_string_spec(r1.drop_first()) {
                    None => None,
                    Some((v, r2)) => {
                        if r2.len() == 0 {
                            None
                        } else if r2[0] == ',' {
                            match scan_pairs(r2.drop_first()) {
                                Some((es, r3)) => Some((seq![(k, v)] + es, r3)),
                                None => None,
                            }
                        } else if r2[0] == '}' {
                            Some((seq![(k, v)], r2.drop_first()))
                        } else {
                            None
                        }
                    },
                }
            }
        },
    }
}

#[via_fn]
proof fn scan_pairs_decreases(s: Seq<char>) {
    lemma_parse_string_shrinks(s);
    match parse_string_spec(s) {
        Some((k, r1)) => {
            if r1.len() > 0 && r1[0] == ':' {
                lemma_parse_string_shrinks(r1.drop_first());
            }
        },
        None => {},
    }
}

/// A whole object of string values: `{}` or `{` entries `}`.
pub open spec fn parse_pairs_spec(s: Seq<char>) -> Option<(Seq<(Seq<char>, Seq<char>)>, Seq<char>)> {
    if s.len() >= 2 && s[0] == '{' && s[1] == '}' {
        Some((Seq::empty(), s.skip(2)))
    } else if s.len() >= 1 && s[0] == '{' {
        scan_pairs(s.drop_first())
    } else {
        None
    }
}

/// One `"key":"value"` pair, rendered.
pub open spec fn pair_text(e: (Seq<char>, Seq<char>)) -> Seq<char> {
    render_string(e.0) + seq![':'] + render_string(e.1)
}

/// The body of a string-valued object: its pairs, comma-separated.
pub open spec fn pairs_body(es: Seq<(Seq<char>, Seq<char>)>) -> Seq<char>
    decreases es.len(),
{
    if es.len() == 0 {
        Seq::empty()
    } else if es.len() == 1 {
        pair_text(es[0])
    } else {
        pair_text(es[0]) + seq![','] + pairs_body(es.drop_first())
    }
}

/// A string-valued object, rendered canonically.
pub open spec fn render_pairs(es: Seq<(Seq<char>, Seq<char>)>) -> Seq<char> {
    seq!['{'] + pairs_body(es) + seq!['}']
}

/// The non-empty entries round trip.
proof fn lemma_scan_pairs_roundtrip(es: Seq<(Seq<char>, Seq<char>)>, rest: Seq<char>)
    requires
        es.len() > 0,
    ensures
        scan_pairs(pairs_body(es) + seq!['}'] + rest) == Some((es, rest)),
    decreases es.len(),
{
    let whole = pairs_body(es) + seq!['}'] + rest;
    let k = es[0].0;
    let v = es[0].1;
    if es.len() == 1 {
        assert(whole =~= render_string(k) + (seq![':'] + render_string(v) + seq!['}'] + rest));
        lemma_string_roundtrip(k, seq![':'] + render_string(v) + seq!['}'] + rest);
        let r1 = seq![':'] + render_string(v) + seq!['}'] + rest;
        assert(r1[0] == ':');
        assert(r1.drop_first() =~= render_string(v) + (seq!['}'] + rest));
        lemma_string_roundtrip(v, seq!['}'] + rest);
        let r2 = seq!['}'] + rest;
        assert(r2[0] == '}');
        assert(r2.drop_first() =~= rest);
        assert(seq![(k, v)] =~= es);
    } else {
        let tail = pairs_body(es.drop_first()) + seq!['}'] + rest;
        assert(whole =~= render_string(k) + (seq![':'] + render_string(v) + seq![','] + tail));
        lemma_string_roundtrip(k, seq![':'] + render_string(v) + seq![','] + tail);
        let r1 = seq![':'] + render_string(v) + seq![','] + tail;
        assert(r1[0] == ':');
        assert(r1.drop_first() =~= render_string(v) + (seq![','] + tail));
        lemma_string_roundtrip(v, seq![','] + tail);
        let r2 = seq![','] + tail;
        assert(r2[0] == ',');
        assert(r2.drop_first() =~= tail);
        lemma_scan_pairs_roundtrip(es.drop_first(), rest);
        assert(seq![(k, v)] + es.drop_first() =~= es);
    }
}

/// The string-valued-object round trip.
pub proof fn lemma_pairs_roundtrip(es: Seq<(Seq<char>, Seq<char>)>, rest: Seq<char>)
    ensures
        parse_pairs_spec(render_pairs(es) + rest) == Some((es, rest)),
{
    let whole = render_pairs(es) + rest;
    assert(whole[0] == '{');
    if es.len() == 0 {
        assert(pairs_body(es) =~= Seq::<char>::empty());
        assert(whole[1] == '}');
        assert(whole.skip(2) =~= rest);
        assert(Seq::<(Seq<char>, Seq<char>)>::empty() =~= es);
    } else {
        // a body opening with a quote is not a closing brace
        assert(pairs_body(es)[0] == '"') by {
            if es.len() == 1 {
                assert(pairs_body(es) == pair_text(es[0]));
            }
            assert(pair_text(es[0])[0] == '"');
        }
        assert(whole[1] == '"');
        assert(whole.drop_first() =~= pairs_body(es) + seq!['}'] + rest);
        lemma_scan_pairs_roundtrip(es, rest);
    }
}

/// Consuming a literal leaves a rest shorter by the literal.
proof fn lemma_expect_lit_shrinks(s: Seq<char>, lit: Seq<char>)
    ensures
        match expect_lit(s, lit) {
            Some(rest) => rest.len() == s.len() - lit.len(),
            None => true,
        },
{
}

/// A directory row, rendered: `{"id":…,"public_ip":…}`.
pub open spec fn render_info(info: PeerInfoView) -> Seq<char> {
    "{\"id\":"@ + render_string(info.id) + ",\"public_ip\":"@ + render_string(info.public_ip)
        + seq!['}']
}

/// Reads a directory row.
pub open spec fn parse_info_spec(s: Seq<char>) -> Option<(PeerInfoView, Seq<char>)> {
    match expect_lit(s, "{\"id\":"@) {
        None => None,
        Some(r1) => match parse_string_spec(r1) {
            None => None,
            Some((id, r2)) => match expect_lit(r2, ",\"public_ip\":"@) {
                None => None,
                Some(r3) => match parse_string_spec(r3) {
                    None => None,
                    Some((pip, r4)) => match expect_lit(r4, seq!['}']) {
                        None => None,
                        Some(r5) => Some((PeerInfoView { id, public_ip: pip }, r5)),
                    },
                },
            },
        },
    }
}

/// The directory-row round trip.
pub proof fn lemma_info_roundtrip(info: PeerInfoView, rest: Seq<char>)
    ensures
        parse_info_spec(render_info(info) + rest) == Some((info, rest)),
{
    let whole = render_info(info) + rest;
    let t1 = render_string(info.id) + ",\"public_ip\":"@ + render_string(info.public_ip)
        + seq!['}'] + rest;
    assert(whole =~= "{\"id\":"@ + t1);
    lemma_expect_lit("{\"id\":"@, t1);
    let t2 = ",\"public_ip\":"@ + render_string(info.public_ip) + seq!['}'] + rest;
    assert(t1 =~= render_string(info.id) + t2);
    lemma_string_roundtrip(info.id, t2);
    let t3 = render_string(info.public_ip) + (seq!['}'] + rest);
    assert(t2 =~= ",\"public_ip\":"@ + t3);
    lemma_expect_lit(",\"public_ip\":"@, t3);
    lemma_string_roundtrip(info.public_ip, seq!['}'] + rest);
    lemma_expect_lit(seq!['}'], rest);
    assert(seq!['}'] + rest =~= seq!['}'] + rest);
}

/// A successful directory-row read leaves a strictly shorter rest.
proof fn lemma_parse_info_shrinks(s: Seq<char>)
    ensures
        match parse_info_spec(s) {
            Some((v, rest)) => rest.len() < s.len(),
            None => true,
        },
{
    lemma_expect_lit_shrinks(s, "{\"id\":"@);
    match expect_lit(s, "{\"id\":"@) {
        None => {},
        Some(r1) => {
            lemma_parse_string_shrinks(r1);
            match parse_string_spec(r1) {
                None => {},
                Some((id, r2)) => {
                    lemma_expect_lit_shrinks(r2, ",\"public_ip\":"@);
                    match expect_lit(r2, ",\"public_ip\":"@) {
                        None => {},
                        Some(r3) => {
                            lemma_parse_string_shrinks(r3);
                            match parse_string_spec(r3) {
                                None => {},
                                Some((pip, r4)) => {
                                    lemma_expect_lit_shrinks(r4, seq!['}']);
                                    assert("{\"id\":"@.len() > 0) by {
                                        reveal_strlit("{\"id\":");
                                    }
                                },
                            }
                        },
                    }
                },
            }
        },
    }
}

/// The optional endpoint of a peer, as text.
pub open spec fn remote_text(ra: Option<Endpoint>) -> Option<Seq<char>> {
    match ra {
        Some(ep) => Some(endpoint_of(ep)),
        None => None,
    }
}

/// A controller peer, rendered: its key fields as strings, the absent ones
/// as `null`, and the allowed addresses as one comma-joined string.
pub open spec fn render_peer_obj(p: PeerView) -> Seq<char> {
    "{\"public_key\":"@ + render_string(p.public_key) + ",\"preshared_key\":"@ + render_opt_string(
        p.preshared_key,
    ) + ",\"remote_address\":"@ + render_opt_string(remote_text(p.remote_address))
        + ",\"allowed_ips\":"@ + render_string(ips_text(p.allowed_ips)) + seq!['}']
}

/// Reads a controller peer.
pub open spec fn parse_peer_spec(s: Seq<char>) -> Option<(PeerView, Seq<char>)> {
    match expect_lit(s, "{\"public_key\":"@) {
        None => None,
        Some(r1) => match parse_string_spec(r1) {
            None => None,
            Some((pk, r2)) => match expect_lit(r2, ",\"preshared_key\":"@) {
                None => None,
                Some(r3) => match parse_opt_string_spec(r3) {
                    None => None,
                    Some((psk, r4)) => match expect_lit(r4, ",\"remote_address\":"@) {
                        None => None,
                        Some(r5) => match parse_opt_string_spec(r5) {
                            None => None,
                            Some((ra_text, r6)) => {
                                let ra = match ra_text {
                                    Some(t) => match parse_endpoint_spec(t) {
                                        Some(ep) => Some(Some(ep)),
                                        None => None,
                                    },
                                    None => Some(None),
                                };
                                match ra {
                                    None => None,
                                    Some(ra) => match expect_lit(r6, ",\"allowed_ips\":"@) {
                                        None => None,
                                        Some(r7) => match parse_string_spec(r7) {
                                            None => None,
                                            Some((ips_str, r8)) => match expect_lit(
                                                r8,
                                                seq!['}'],
                                            ) {
                                                None => None,
                                                Some(r9) => Some(
                                                    (
                                                        PeerView {
                                                            public_key: pk,
                                                            preshared_key: psk,
                                                            remote_address: ra,
                                                            allowed_ips: allowed_ips_of(ips_str),
                                                        },
                                                        r9,
                                                    ),
                                                ),
                                            },
                                        },
                                    },
                                }
                            },
                        },
                    },
                },
            },
        },
    }
}

/// The controller-peer round trip: every field reads back, the addresses
/// through their own round trip.
#[verifier::rlimit(100)]
pub proof fn lemma_peer_roundtrip(p: PeerView, rest: Seq<char>)
    ensures
        parse_peer_spec(render_peer_obj(p) + rest) == Some((p, rest)),
{
    let whole = render_peer_obj(p) + rest;
    let t1 = render_string(p.public_key) + ",\"preshared_key\":"@ + render_opt_string(
        p.preshared_key,
    ) + ",\"remote_address\":"@ + render_opt_string(remote_text(p.remote_address))
        + ",\"allowed_ips\":"@ + render_string(ips_text(p.allowed_ips)) + seq!['}'] + rest;
    assert(whole =~= "{\"public_key\":"@ + t1);
    lemma_expect_lit("{\"public_key\":"@, t1);
    let t2 = ",\"preshared_key\":"@ + render_opt_string(p.preshared_key)
        + ",\"remote_address\":"@ + render_opt_string(remote_text(p.remote_address))
        + ",\"allowed_ips\":"@ + render_string(ips_text(p.allowed_ips)) + seq!['}'] + rest;
    assert(t1 =~= render_string(p.public_key) + t2);
    lemma_string_roundtrip(p.public_key, t2);
    let t3 = render_opt_string(p.preshared_key) + (",\"remote_address\":"@ + render_opt_string(
        remote_text(p.remote_address),
    ) + ",\"allowed_ips\":"@ + render_string(ips_text(p.allowed_ips)) + seq!['}'] + rest);
    assert(t2 =~= ",\"preshared_key\":"@ + t3);
    lemma_expect_lit(",\"preshared_key\":"@, t3);
    let t4 = ",\"remote_address\":"@ + render_opt_string(remote_text(p.remote_address))
        + ",\"allowed_ips\":"@ + render_string(ips_text(p.allowed_ips)) + seq!['}'] + rest;
    lemma_opt_string_roundtrip(p.preshared_key, t4);
    let t5 = render_opt_string(remote_text(p.remote_address)) + (",\"allowed_ips\":"@
        + render_string(ips_text(p.allowed_ips)) + seq!['}'] + rest);
    assert(t4 =~= ",\"remote_address\":"@ + t5);
    lemma_expect_lit(",\"remote_address\":"@, t5);
    let t6 = ",\"allowed_ips\":"@ + render_string(ips_text(p.allowed_ips)) + seq!['}'] + rest;
    lemma_opt_string_roundtrip(remote_text(p.remote_address), t6);
    match p.remote_address {
        Some(ep) => {
            lemma_endpoint_roundtrip(ep);
        },
        None => {},
    }
    let t7 = render_string(ips_text(p.allowed_ips)) + (seq!['}'] + rest);
    assert(t6 =~= ",\"allowed_ips\":"@ + t7);
    lemma_expect_lit(",\"allowed_ips\":"@, t7);
    lemma_string_roundtrip(ips_text(p.allowed_ips), seq!['}'] + rest);
    lemma_ips_roundtrip(p.allowed_ips);
    lemma_expect_lit(seq!['}'], rest);
}

/// A successful controller-peer read leaves a strictly shorter rest.
proof fn lemma_parse_peer_shrinks(s: Seq<char>)
    ensures
        match parse_peer_spec(s) {
            Some((v, rest)) => rest.len() < s.len(),
            None => true,
        },
{
    reveal_strlit("{\"public_key\":");
    reveal_strlit("null");
    lemma_expect_lit_shrinks(s, "{\"public_key\":"@);
    match expect_lit(s, "{\"public_key\":"@) {
        None => {},
        Some(r1) => {
            lemma_parse_string_shrinks(r1);
            match parse_string_spec(r1) {
                None => {},
                Some((pk, r2)) => {
                    lemma_expect_lit_shrinks(r2, ",\"preshared_key\":"@);
                    match expect_lit(r2, ",\"preshared_key\":"@) {
                        None => {},
                        Some(r3) => {
                            lemma_parse_opt_string_shrinks(r3);
                            match parse_opt_string_spec(r3) {
                                None => {},
                                Some((psk, r4)) => {
                                    lemma_expect_lit_shrinks(r4, ",\"remote_address\":"@);
                                    match expect_lit(r4, ",\"remote_address\":"@) {
                                        None => {},
                                        Some(r5) => {
                                            lemma_parse_opt_string_shrinks(r5);
                                            match parse_opt_string_spec(r5) {
                                                None => {},
                                                Some((ra, r6)) => {
                                                    lemma_expect_lit_shrinks(
                                                        r6,
                                                        ",\"allowed_ips\":"@,
                                                    );
                                                    match expect_lit(r6, ",\"allowed_ips\":"@) {
                                                        None => {},
                                                        Some(r7) => {
                                                            lemma_parse_string_shrinks(r7);
                                                            match parse_string_spec(r7) {
                                                                None => {},
                                                                Some((ips, r8)) => {
                                                                    lemma_expect_lit_shrinks(
                                                                        r8,
                                                                        seq!['}'],
                                                                    );
                                                                },
                                                            }
                                                        },
                                                    }
                                                },
                                            }
                                        },
                                    }
                                },
                            }
                        },
                    }
                },
            }
        },
    }
}

/// A successful optional-string read leaves a strictly shorter rest.
proof fn lemma_parse_opt_string_shrinks(s: Seq<char>)
    ensures
        match parse_opt_string_spec(s) {
            Some((v, rest)) => rest.len() < s.len(),
            None => true,
        },
{
    reveal_strlit("null");
    lemma_expect_lit_shrinks(s, "null"@);
    match expect_lit(s, "null"@) {
        Some(_) => {},
        None => {
            lemma_parse_string_shrinks(s);
        },
    }
}


/// The entries of an object whose values are directory rows.
pub open spec fn scan_info_pairs(s: Seq<char>) -> Option<
    (Seq<(Seq<char>, PeerInfoView)>, Seq<char>),
>
    decreases s.len(),
    when true
    via scan_info_pairs_decreases
{
    match parse_string_spec(s) {
        None => None,
        Some((k, r1)) => {
            if r1.len() == 0 || r1[0] != ':' {
                None
            } else {
                match parse_info_spec(r1.drop_first()) {
                    None => None,
                    Some((v, r2)) => {
                        if r2.len() == 0 {
                            None
                        } else if r2[0] == ',' {
                            match scan_info_pairs(r2.drop_first()) {
                                Some((es, r3)) => Some((seq![(k, v)] + es, r3)),
                                None => None,
                            }
                        } else if r2[0] == '}' {
                            Some((seq![(k, v)], r2.drop_first()))
                        } else {
                            None
                        }
                    },
                }
            }
        },
    }
}

#[via_fn]
proof fn scan_info_pairs_decreases(s: Seq<char>) {
    lemma_parse_string_shrinks(s);
    match parse_string_spec(s) {
        Some((k, r1)) => {
            if r1.len() > 0 && r1[0] == ':' {
                lemma_parse_info_shrinks(r1.drop_first());
            }
        },
        None => {},
    }
}

/// A whole object of directory rows.
pub open spec fn parse_info_pairs_spec(s: Seq<char>) -> Option<
    (Seq<(Seq<char>, PeerInfoView)>, Seq<char>),
> {
    if s.len() >= 2 && s[0] == '{' && s[1] == '}' {
        Some((Seq::empty(), s.skip(2)))
    } else if s.len() >= 1 && s[0] == '{' {
        scan_info_pairs(s.drop_first())
    } else {
        None
    }
}

pub open spec fn info_pair_text(e: (Seq<char>, PeerInfoView)) -> Seq<char> {
    render_string(e.0) + seq![':'] + render_info(e.1)
}

pub open spec fn info_pairs_body(es: Seq<(Seq<char>, PeerInfoView)>) -> Seq<char>
    decreases es.len(),
{
    if es.len() == 0 {
        Seq::empty()
    } else if es.len() == 1 {
        info_pair_text(es[0])
    } else {
        info_pair_text(es[0]) + seq![','] + info_pairs_body(es.drop_first())
    }
}

pub open spec fn render_info_pairs(es: Seq<(Seq<char>, PeerInfoView)>) -> Seq<char> {
    seq!['{'] + info_pairs_body(es) + seq!['}']
}

proof fn lemma_scan_info_pairs_roundtrip(es: Seq<(Seq<char>, PeerInfoView)>, rest: Seq<char>)
    requires
        es.len() > 0,
    ensures
        scan_info_pairs(info_pairs_body(es) + seq!['}'] + rest) == Some((es, rest)),
    decreases es.len(),
{
    let whole = info_pairs_body(es) + seq!['}'] + rest;
    let k = es[0].0;
    let v = es[0].1;
    if es.len() == 1 {
        assert(whole =~= render_string(k) + (seq![':'] + render_info(v) + seq!['}'] + rest));
        lemma_string_roundtrip(k, seq![':'] + render_info(v) + seq!['}'] + rest);
        let r1 = seq![':'] + render_info(v) + seq!['}'] + rest;
        assert(r1[0] == ':');
        assert(r1.drop_first() =~= render_info(v) + (seq!['}'] + rest));
        lemma_info_roundtrip(v, seq!['}'] + rest);
        let r2 = seq!['}'] + rest;
        assert(r2[0] == '}');
        assert(r2.drop_first() =~= rest);
        assert(seq![(k, v)] =~= es);
    } else {
        let tail = info_pairs_body(es.drop_first()) + seq!['}'] + rest;
        assert(whole =~= render_string(k) + (seq![':'] + render_info(v) + seq![','] + tail));
        lemma_string_roundtrip(k, seq![':'] + render_info(v) + seq![','] + tail);
        let r1 = seq![':'] + render_info(v) + seq![','] + tail;
        assert(r1[0] == ':');
        assert(r1.drop_first() =~= render_info(v) + (seq![','] + tail));
        lemma_info_roundtrip(v, seq![','] + tail);
        let r2 = seq![','] + tail;
        assert(r2[0] == ',');
        assert(r2.drop_first() =~= tail);
        lemma_scan_info_pairs_roundtrip(es.drop_first(), rest);
        assert(seq![(k, v)] + es.drop_first() =~= es);
    }
}

pub proof fn lemma_info_pairs_roundtrip(es: Seq<(Seq<char>, PeerInfoView)>, rest: Seq<char>)
    ensures
        parse_info_pairs_spec(render_info_pairs(es) + rest) == Some((es, rest)),
{
    let whole = render_info_pairs(es) + rest;
    assert(whole[0] == '{');
    if es.len() == 0 {
        assert(info_pairs_body(es) =~= Seq::<char>::empty());
        assert(whole[1] == '}');
        assert(whole.skip(2) =~= rest);
        assert(Seq::<(Seq<char>, PeerInfoView)>::empty() =~= es);
    } else {
        assert(info_pairs_body(es)[0] == '"') by {
            if es.len() == 1 {
                assert(info_pairs_body(es) == info_pair_text(es[0]));
            }
            assert(info_pair_text(es[0])[0] == '"');
        }
        assert(whole[1] == '"');
        assert(whole.drop_first() =~= info_pairs_body(es) + seq!['}'] + rest);
        lemma_scan_info_pairs_roundtrip(es, rest);
    }
}

/// The entries of an object whose values are controller peers.
pub open spec fn scan_peer_pairs(s: Seq<char>) -> Option<(Seq<(Seq<char>, PeerView)>, Seq<char>)>
    decreases s.len(),
    when true
    via scan_peer_pairs_decreases
{
    match parse_string_spec(s) {
        None => None,
        Some((k, r1)) => {
            if r1.len() == 0 || r1[0] != ':' {
                None
            } else {
                match parse_peer_spec(r1.drop_first()) {
                    None => None,
                    Some((v, r2)) => {
                        if r2.len() == 0 {
                            None
                        } else if r2[0] == ',' {
                            match scan_peer_pairs(r2.drop_first()) {
                                Some((es, r3)) => Some((seq![(k, v)] + es, r3)),
                                None => None,
                            }
                        } else if r2[0] == '}' {
                            Some((seq![(k, v)], r2.drop_first()))
                        } else {
                            None
                        }
                    },
                }
            }
        },
    }
}

#[via_fn]
proof fn scan_peer_pairs_decreases(s: Seq<char>) {
    lemma_parse_string_shrinks(s);
    match parse_string_spec(s) {
        Some((k, r1)) => {
            if r1.len() > 0 && r1[0] == ':' {
                lemma_parse_peer_shrinks(r1.drop_first());
            }
        },
        None => {},
    }
}

/// A whole object of controller peers.
pub open spec fn parse_peer_pairs_spec(s: Seq<char>) -> Option<
    (Seq<(Seq<char>, PeerView)>, Seq<char>),
> {
    if s.len() >= 2 && s[0] == '{' && s[1] == '}' {
        Some((Seq::empty(), s.skip(2)))
    } else if s.len() >= 1 && s[0] == '{' {
        scan_peer_pairs(s.drop_first())
    } else {
        None
    }
}

pub open spec fn peer_pair_text(e: (Seq<char>, PeerView)) -> Seq<char> {
    render_string(e.0) + seq![':'] + render_peer_obj(e.1)
}

pub open spec fn peer_pairs_body(es: Seq<(Seq<char>, PeerView)>) -> Seq<char>
    decreases es.len(),
{
    if es.len() == 0 {
        Seq::empty()
    } else if es.len() == 1 {
        peer_pair_text(es[0])
    } else {
        peer_pair_text(es[0]) + seq![','] + peer_pairs_body(es.drop_first())
    }
}

pub open spec fn render_peer_pairs(es: Seq<(Seq<char>, PeerView)>) -> Seq<char> {
    seq!['{'] + peer_pairs_body(es) + seq!['}']
}

#[verifier::rlimit(100)]
#[verifier::spinoff_prover]
proof fn lemma_scan_peer_pairs_roundtrip(es: Seq<(Seq<char>, PeerView)>, rest: Seq<char>)
    requires
        es.len() > 0,
    ensures
        scan_peer_pairs(peer_pairs_body(es) + seq!['}'] + rest) == Some((es, rest)),
    decreases es.len(),
{
    let whole = peer_pairs_body(es) + seq!['}'] + rest;
    let k = es[0].0;
    let v = es[0].1;
    if es.len() == 1 {
        assert(whole =~= render_string(k) + (seq![':'] + render_peer_obj(v) + seq!['}'] + rest));
        lemma_string_roundtrip(k, seq![':'] + render_peer_obj(v) + seq!['}'] + rest);
        let r1 = seq![':'] + render_peer_obj(v) + seq!['}'] + rest;
        assert(r1[0] == ':');
        assert(r1.drop_first() =~= render_peer_obj(v) + (seq!['}'] + rest));
        lemma_peer_roundtrip(v, seq!['}'] + rest);
        let r2 = seq!['}'] + rest;
        assert(r2[0] == '}');
        assert(r2.drop_first() =~= rest);
        assert(seq![(k, v)] =~= es);
    } else {
        let tail = peer_pairs_body(es.drop_first()) + seq!['}'] + rest;
        assert(whole =~= render_string(k) + (seq![':'] + render_peer_obj(v) + seq![','] + tail));
        lemma_string_roundtrip(k, seq![':'] + render_peer_obj(v) + seq![','] + tail);
        let r1 = seq![':'] + render_peer_obj(v) + seq![','] + tail;
        assert(r1[0] == ':');
        assert(r1.drop_first() =~= render_peer_obj(v) + (seq![','] + tail));
        lemma_peer_roundtrip(v, seq![','] + tail);
        let r2 = seq![','] + tail;
        assert(r2[0] == ',');
        assert(r2.drop_first() =~= tail);
        lemma_scan_peer_pairs_roundtrip(es.drop_first(), rest);
        assert(seq![(k, v)] + es.drop_first() =~= es);
    }
}

pub proof fn lemma_peer_pairs_roundtrip(es: Seq<(Seq<char>, PeerView)>, rest: Seq<char>)
    ensures
        parse_peer_pairs_spec(render_peer_pairs(es) + rest) == Some((es, rest)),
{
    let whole = render_peer_pairs(es) + rest;
    assert(whole[0] == '{');
    if es.len() == 0 {
        assert(peer_pairs_body(es) =~= Seq::<char>::empty());
        assert(whole[1] == '}');
        assert(whole.skip(2) =~= rest);
        assert(Seq::<(Seq<char>, PeerView)>::empty() =~= es);
    } else {
        assert(peer_pairs_body(es)[0] == '"') by {
            if es.len() == 1 {
                assert(peer_pairs_body(es) == peer_pair_text(es[0]));
            }
            assert(peer_pair_text(es[0])[0] == '"');
        }
        assert(whole[1] == '"');
        assert(whole.drop_first() =~= peer_pairs_body(es) + seq!['}'] + rest);
        lemma_scan_peer_pairs_roundtrip(es, rest);
    }
}

/// The internal index as text entries: addresses as dotted quads, rows as
/// their views.
pub open spec fn internal_entries_text(s: Seq<(u32, PeerInfo)>) -> Seq<(Seq<char>, PeerInfoView)> {
    s.map_values(|e: (u32, PeerInfo)| (ipv4_of(e.0), e.1@))
}

/// The external index as text entries: identities as they are, addresses as
/// dotted quads.
pub open spec fn external_entries_text(s: Seq<(String, u32)>) -> Seq<(Seq<char>, Seq<char>)> {
    s.map_values(|e: (String, u32)| (e.0@, ipv4_of(e.1)))
}

/// The controller's peers as text entries.
pub open spec fn peers_entries_text(s: Seq<(String, RegisteredPeer)>) -> Seq<
    (Seq<char>, PeerView),
> {
    s.map_values(|e: (String, RegisteredPeer)| (e.0@, e.1@))
}

/// The assigned addresses as text entries.
pub open spec fn assigned_entries_text(s: Seq<(u32, String)>) -> Seq<(Seq<char>, Seq<char>)> {
    s.map_values(|e: (u32, String)| (ipv4_of(e.0), e.1@))
}

/// The controller sub-document, rendered canonically.
pub open spec fn render_vpn_spec(
    iface: Seq<char>,
    ifpk: Seq<char>,
    peers: Seq<(Seq<char>, PeerView)>,
    assigned: Seq<(Seq<char>, Seq<char>)>,
) -> Seq<char> {
    "{\"interface_name\":"@ + render_string(iface) + ",\"interface_public_key\":"@
        + render_string(ifpk) + ",\"peers\":"@ + render_peer_pairs(peers)
        + ",\"assigned_ips\":"@ + render_pairs(assigned) + seq!['}']
}

/// The whole directory, rendered canonically.
pub open spec fn render_db_spec(db: ProxyDb) -> Seq<char> {
    "{\"internal_mapping\":"@ + render_info_pairs(
        internal_entries_text(db.internal_mapping.kvs()),
    ) + ",\"external_mapping\":"@ + render_pairs(external_entries_text(db.external_mapping.kvs()))
        + ",\"vpn\":"@ + render_vpn_spec(
        db.vpn.interface_name@,
        db.vpn.interface_public_key@,
        peers_entries_text(db.vpn.peers.kvs()),
        assigned_entries_text(db.vpn.assigned_ips.kvs()),
    ) + seq!['}']
}

/// What a persisted document says, before the text entries are turned back
/// into indices.
pub struct DbText {
    pub internal: Seq<(Seq<char>, PeerInfoView)>,
    pub external: Seq<(Seq<char>, Seq<char>)>,
    pub interface_name: Seq<char>,
    pub interface_public_key: Seq<char>,
    pub peers: Seq<(Seq<char>, PeerView)>,
    pub assigned: Seq<(Seq<char>, Seq<char>)>,
}

/// The text entries a directory writes.
pub open spec fn db_text(db: ProxyDb) -> DbText {
    DbText {
        internal: internal_entries_text(db.internal_mapping.kvs()),
        external: external_entries_text(db.external_mapping.kvs()),
        interface_name: db.vpn.interface_name@,
        interface_public_key: db.vpn.interface_public_key@,
        peers: peers_entries_text(db.vpn.peers.kvs()),
        assigned: assigned_entries_text(db.vpn.assigned_ips.kvs()),
    }
}

/// What the controller sub-document says.
pub struct VpnText {
    pub interface_name: Seq<char>,
    pub interface_public_key: Seq<char>,
    pub peers: Seq<(Seq<char>, PeerView)>,
    pub assigned: Seq<(Seq<char>, Seq<char>)>,
}

/// Reads the controller sub-document.
pub open spec fn parse_vpn_spec(s: Seq<char>) -> Option<(VpnText, Seq<char>)> {
    match expect_lit(s, "{\"interface_name\":"@) {
        None => None,
        Some(r1) => match parse_string_spec(r1) {
            None => None,
            Some((iface, r2)) => match expect_lit(r2, ",\"interface_public_key\":"@) {
                None => None,
                Some(r3) => match parse_string_spec(r3) {
                    None => None,
                    Some((ifpk, r4)) => match expect_lit(r4, ",\"peers\":"@) {
                        None => None,
                        Some(r5) => match parse_peer_pairs_spec(r5) {
                            None => None,
                            Some((peers, r6)) => match expect_lit(r6, ",\"assigned_ips\":"@) {
                                None => None,
                                Some(r7) => match parse_pairs_spec(r7) {
                                    None => None,
                                    Some((assigned, r8)) => match expect_lit(r8, seq!['}']) {
                                        None => None,
                                        Some(r9) => Some(
                                            (
                                                VpnText {
                                                    interface_name: iface,
                                                    interface_public_key: ifpk,
                                                    peers,
                                                    assigned,
                                                },
                                                r9,
                                            ),
                                        ),
                                    },
                                },
                            },
                        },
                    },
                },
            },
        },
    }
}

/// The controller sub-document round trip.
#[verifier::rlimit(100)]
pub proof fn lemma_vpn_roundtrip(
    iface: Seq<char>,
    ifpk: Seq<char>,
    peers: Seq<(Seq<char>, PeerView)>,
    assigned: Seq<(Seq<char>, Seq<char>)>,
    rest: Seq<char>,
)
    ensures
        parse_vpn_spec(render_vpn_spec(iface, ifpk, peers, assigned) + rest) == Some(
            (
                VpnText {
                    interface_name: iface,
                    interface_public_key: ifpk,
                    peers,
                    assigned,
                },
                rest,
            ),
        ),
{
    let whole = render_vpn_spec(iface, ifpk, peers, assigned) + rest;
    let t1 = render_string(iface) + (",\"interface_public_key\":"@ + render_string(ifpk)
        + ",\"peers\":"@ + render_peer_pairs(peers) + ",\"assigned_ips\":"@ + render_pairs(
        assigned,
    ) + seq!['}'] + rest);
    assert(whole =~= "{\"interface_name\":"@ + t1);
    lemma_expect_lit("{\"interface_name\":"@, t1);
    let t2 = ",\"interface_public_key\":"@ + render_string(ifpk) + ",\"peers\":"@
        + render_peer_pairs(peers) + ",\"assigned_ips\":"@ + render_pairs(assigned) + seq!['}']
        + rest;
    lemma_string_roundtrip(iface, t2);
    let t3 = render_string(ifpk) + (",\"peers\":"@ + render_peer_pairs(peers)
        + ",\"assigned_ips\":"@ + render_pairs(assigned) + seq!['}'] + rest);
    assert(t2 =~= ",\"interface_public_key\":"@ + t3);
    lemma_expect_lit(",\"interface_public_key\":"@, t3);
    let t4 = ",\"peers\":"@ + render_peer_pairs(peers) + ",\"assigned_ips\":"@ + render_pairs(
        assigned,
    ) + seq!['}'] + rest;
    lemma_string_roundtrip(ifpk, t4);
    let t5 = render_peer_pairs(peers) + (",\"assigned_ips\":"@ + render_pairs(assigned)
        + seq!['}'] + rest);
    assert(t4 =~= ",\"peers\":"@ + t5);
    lemma_expect_lit(",\"peers\":"@, t5);
    let t6 = ",\"assigned_ips\":"@ + render_pairs(assigned) + seq!['}'] + rest;
    lemma_peer_pairs_roundtrip(peers, t6);
    let t7 = render_pairs(assigned) + (seq!['}'] + rest);
    assert(t6 =~= ",\"assigned_ips\":"@ + t7);
    lemma_expect_lit(",\"assigned_ips\":"@, t7);
    lemma_pairs_roundtrip(assigned, seq!['}'] + rest);
    lemma_expect_lit(seq!['}'], rest);
}

/// Reads a whole persisted document; nothing may follow it.
pub open spec fn parse_db_spec(s: Seq<char>) -> Option<DbText> {
    match expect_lit(s, "{\"internal_mapping\":"@) {
        None => None,
        Some(r1) => match parse_info_pairs_spec(r1) {
            None => None,
            Some((internal, r2)) => match expect_lit(r2, ",\"external_mapping\":"@) {
                None => None,
                Some(r3) => match parse_pairs_spec(r3) {
                    None => None,
                    Some((external, r4)) => match expect_lit(r4, ",\"vpn\":"@) {
                        None => None,
                        Some(r5) => match parse_vpn_spec(r5) {
                            None => None,
                            Some((vpn, r6)) => match expect_lit(r6, seq!['}']) {
                                None => None,
                                Some(r7) => if r7.len() == 0 {
                                    Some(
                                        DbText {
                                            internal,
                                            external,
                                            interface_name: vpn.interface_name,
                                            interface_public_key: vpn.interface_public_key,
                                            peers: vpn.peers,
                                            assigned: vpn.assigned,
                                        },
                                    )
                                } else {
                                    None
                                },
                            },
                        },
                    },
                },
            },
        },
    }
}

/// The persistence round trip: the canonical rendering of a directory reads
/// back as exactly the directory's own text entries — every identity, every
/// address, every peer, key by key, in order.
#[verifier::rlimit(100)]
pub proof fn lemma_save_load_roundtrip(db: ProxyDb)
    ensures
        parse_db_spec(render_db_spec(db)) == Some(db_text(db)),
{
    let internal = internal_entries_text(db.internal_mapping.kvs());
    let external = external_entries_text(db.external_mapping.kvs());
    let peers = peers_entries_text(db.vpn.peers.kvs());
    let assigned = assigned_entries_text(db.vpn.assigned_ips.kvs());
    let vpn_part = render_vpn_spec(
        db.vpn.interface_name@,
        db.vpn.interface_public_key@,
        peers,
        assigned,
    );
    let whole = render_db_spec(db);
    let t1 = render_info_pairs(internal) + (",\"external_mapping\":"@ + render_pairs(external)
        + ",\"vpn\":"@ + vpn_part + seq!['}']);
    assert(whole =~= "{\"internal_mapping\":"@ + t1);
    lemma_expect_lit("{\"internal_mapping\":"@, t1);
    let t2 = ",\"external_mapping\":"@ + render_pairs(external) + ",\"vpn\":"@ + vpn_part
        + seq!['}'];
    lemma_info_pairs_roundtrip(internal, t2);
    let t3 = render_pairs(external) + (",\"vpn\":"@ + vpn_part + seq!['}']);
    assert(t2 =~= ",\"external_mapping\":"@ + t3);
    lemma_expect_lit(",\"external_mapping\":"@, t3);
    let t4 = ",\"vpn\":"@ + vpn_part + seq!['}'];
    lemma_pairs_roundtrip(external, t4);
    let t5 = vpn_part + seq!['}'];
    assert(t4 =~= ",\"vpn\":"@ + t5);
    lemma_expect_lit(",\"vpn\":"@, t5);
    lemma_vpn_roundtrip(
        db.vpn.interface_name@,
        db.vpn.interface_public_key@,
        peers,
        assigned,
        seq!['}'],
    );
    lemma_expect_lit(seq!['}'], Seq::<char>::empty());
    assert(seq!['}'] + Seq::<char>::empty() =~= seq!['}']);
}

/// Appends `null` or the quoted, escaped string.
pub fn append_opt_string(out: &mut String, v: &Option<String>)
    ensures
        final(out)@ == old(out)@ + render_opt_string(match v {
            Some(x) => Some(x@),
            None => None,
        }),
{
    proof {
        reveal_strlit("null");
    }
    match v {
        Some(x) => append_json_string(out, x.as_str()),
        None => out.append("null"),
    }
}

/// Appends a rendered directory row.
pub fn append_info(out: &mut String, info: &PeerInfo)
    ensures
        final(out)@ == old(out)@ + render_info(info@),
{
    proof {
        reveal_strlit("{\"id\":");
        reveal_strlit(",\"public_ip\":");
        reveal_strlit("}");
        assert("}"@ =~= seq!['}']);
    }
    out.append("{\"id\":");
    append_json_string(out, info.id.as_str());
    out.append(",\"public_ip\":");
    append_json_string(out, info.public_ip.as_str());
    out.append("}");
    proof {
        assert(out@ =~= old(out)@ + render_info(info@));
    }
}

/// Appends a rendered controller peer.
pub fn append_peer_obj(out: &mut String, p: &RegisteredPeer)
    ensures
        final(out)@ == old(out)@ + render_peer_obj(p@),
{
    proof {
        reveal_strlit("{\"public_key\":");
        reveal_strlit(",\"preshared_key\":");
        reveal_strlit(",\"remote_address\":");
        reveal_strlit(",\"allowed_ips\":");
        reveal_strlit("}");
        assert("}"@ =~= seq!['}']);
    }
    out.append("{\"public_key\":");
    append_json_string(out, p.public_key.as_str());
    out.append(",\"preshared_key\":");
    append_opt_string(out, &p.preshared_key);
    out.append(",\"remote_address\":");
    let ra_text = match &p.remote_address {
        Some(ep) => Some(endpoint_to_string(ep)),
        None => None,
    };
    proof {
        assert((match ra_text {
            Some(x) => Some(x@),
            None => None::<Seq<char>>,
        }) == remote_text(p@.remote_address));
    }
    append_opt_string(out, &ra_text);
    out.append(",\"allowed_ips\":");
    append_json_string(out, ips_to_string(&p.allowed_ips).as_str());
    out.append("}");
    proof {
        assert(out@ =~= old(out)@ + render_peer_obj(p@));
    }
}

/// Appending one entry extends an object body by a comma (after the first)
/// and the entry's text.
proof fn lemma_pairs_body_snoc(es: Seq<(Seq<char>, Seq<char>)>, e: (Seq<char>, Seq<char>))
    ensures
        es.len() == 0 ==> pairs_body(es.push(e)) == pair_text(e),
        es.len() > 0 ==> pairs_body(es.push(e)) == pairs_body(es) + seq![','] + pair_text(e),
    decreases es.len(),
{
    let t = es.push(e);
    if es.len() == 0 {
        assert(t[0] == e);
    } else {
        assert(t[0] == es[0]);
        assert(t.drop_first() =~= es.drop_first().push(e));
        lemma_pairs_body_snoc(es.drop_first(), e);
        if es.len() == 1 {
            assert(pairs_body(t) =~= pair_text(es[0]) + seq![','] + pair_text(e));
        } else {
            assert(pairs_body(t) =~= pair_text(t[0]) + seq![','] + pairs_body(t.drop_first()));
            assert(pairs_body(es) + seq![','] + pair_text(e) =~= pair_text(es[0]) + seq![','] + (
            pairs_body(es.drop_first()) + seq![','] + pair_text(e)));
        }
    }
}

proof fn lemma_info_pairs_body_snoc(es: Seq<(Seq<char>, PeerInfoView)>, e: (Seq<char>, PeerInfoView))
    ensures
        es.len() == 0 ==> info_pairs_body(es.push(e)) == info_pair_text(e),
        es.len() > 0 ==> info_pairs_body(es.push(e)) == info_pairs_body(es) + seq![',']
            + info_pair_text(e),
    decreases es.len(),
{
    let t = es.push(e);
    if es.len() == 0 {
        assert(t[0] == e);
    } else {
        assert(t[0] == es[0]);
        assert(t.drop_first() =~= es.drop_first().push(e));
        lemma_info_pairs_body_snoc(es.drop_first(), e);
        if es.len() == 1 {
            assert(info_pairs_body(t) =~= info_pair_text(es[0]) + seq![','] + info_pair_text(e));
        } else {
            assert(info_pairs_body(t) =~= info_pair_text(t[0]) + seq![','] + info_pairs_body(
                t.drop_first(),
            ));
            assert(info_pairs_body(es) + seq![','] + info_pair_text(e) =~= info_pair_text(es[0])
                + seq![','] + (info_pairs_body(es.drop_first()) + seq![','] + info_pair_text(e)));
        }
    }
}

proof fn lemma_peer_pairs_body_snoc(es: Seq<(Seq<char>, PeerView)>, e: (Seq<char>, PeerView))
    ensures
        es.len() == 0 ==> peer_pairs_body(es.push(e)) == peer_pair_text(e),
        es.len() > 0 ==> peer_pairs_body(es.push(e)) == peer_pairs_body(es) + seq![',']
            + peer_pair_text(e),
    decreases es.len(),
{
    let t = es.push(e);
    if es.len() == 0 {
        assert(t[0] == e);
    } else {
        assert(t[0] == es[0]);
        assert(t.drop_first() =~= es.drop_first().push(e));
        lemma_peer_pairs_body_snoc(es.drop_first(), e);
        if es.len() == 1 {
            assert(peer_pairs_body(t) =~= peer_pair_text(es[0]) + seq![','] + peer_pair_text(e));
        } else {
            assert(peer_pairs_body(t) =~= peer_pair_text(t[0]) + seq![','] + peer_pairs_body(
                t.drop_first(),
            ));
            assert(peer_pairs_body(es) + seq![','] + peer_pair_text(e) =~= peer_pair_text(es[0])
                + seq![','] + (peer_pairs_body(es.drop_first()) + seq![','] + peer_pair_text(e)));
        }
    }
}

/// Appends the internal index as a rendered object.
#[verifier::rlimit(50)]
fn append_internal(out: &mut String, m: &crate::ipmap::IpMap<PeerInfo>)
    ensures
        final(out)@ == old(out)@ + render_info_pairs(internal_entries_text(m.kvs())),
{
    proof {
        reveal_strlit("{");
        reveal_strlit("}");
        reveal_strlit(",");
        reveal_strlit(":");
        assert("{"@ =~= seq!['{']);
        assert("}"@ =~= seq!['}']);
        assert(","@ =~= seq![',']);
        assert(":"@ =~= seq![':']);
    }
    out.append("{");
    let n = m.len();
    let mut i: usize = 0;
    proof {
        assert(internal_entries_text(m.kvs().take(0)) =~= Seq::<(Seq<char>, PeerInfoView)>::empty());
        assert(out@ =~= old(out)@ + seq!['{'] + info_pairs_body(
            internal_entries_text(m.kvs().take(0)),
        ));
    }
    while i < n
        invariant
            n == m.kvs().len(),
            0 <= i <= n,
            out@ == old(out)@ + seq!['{'] + info_pairs_body(
                internal_entries_text(m.kvs().take(i as int)),
            ),
            ","@ =~= seq![','],
            ":"@ =~= seq![':'],
        decreases n - i,
    {
        if i > 0 {
            out.append(",");
        }
        let k = m.key_at(i);
        append_json_string(out, ipv4_to_string(k).as_str());
        out.append(":");
        append_info(out, m.val_at(i));
        proof {
            let es = internal_entries_text(m.kvs().take(i as int));
            let e = (ipv4_of(m.kvs()[i as int].0), m.kvs()[i as int].1@);
            lemma_info_pairs_body_snoc(es, e);
            assert(es.len() == i);
            assert(internal_entries_text(m.kvs().take(i + 1)) =~= es.push(e)) by {
                assert(m.kvs().take(i + 1) =~= m.kvs().take(i as int).push(m.kvs()[i as int]));
            }
            assert(out@ =~= old(out)@ + seq!['{'] + info_pairs_body(es.push(e)));
        }
        i = i + 1;
    }
    out.append("}");
    proof {
        assert(m.kvs().take(n as int) =~= m.kvs());
        assert(out@ =~= old(out)@ + render_info_pairs(internal_entries_text(m.kvs())));
    }
}

/// Appends the external index as a rendered object.
#[verifier::rlimit(50)]
fn append_external(out: &mut String, m: &crate::strmap::StrMap<u32>)
    ensures
        final(out)@ == old(out)@ + render_pairs(external_entries_text(m.kvs())),
{
    proof {
        reveal_strlit("{");
        reveal_strlit("}");
        reveal_strlit(",");
        reveal_strlit(":");
        assert("{"@ =~= seq!['{']);
        assert("}"@ =~= seq!['}']);
        assert(","@ =~= seq![',']);
        assert(":"@ =~= seq![':']);
    }
    out.append("{");
    let n = m.len();
    let mut i: usize = 0;
    proof {
        assert(external_entries_text(m.kvs().take(0)) =~= Seq::<(Seq<char>, Seq<char>)>::empty());
        assert(out@ =~= old(out)@ + seq!['{'] + pairs_body(external_entries_text(m.kvs().take(0))));
    }
    while i < n
        invariant
            n == m.kvs().len(),
            0 <= i <= n,
            out@ == old(out)@ + seq!['{'] + pairs_body(external_entries_text(m.kvs().take(i as int))),
            ","@ =~= seq![','],
            ":"@ =~= seq![':'],
        decreases n - i,
    {
        if i > 0 {
            out.append(",");
        }
        append_json_string(out, m.key_at(i).as_str());
        out.append(":");
        append_json_string(out, ipv4_to_string(*m.val_at(i)).as_str());
        proof {
            let es = external_entries_text(m.kvs().take(i as int));
            let e = (m.kvs()[i as int].0@, ipv4_of(m.kvs()[i as int].1));
            lemma_pairs_body_snoc(es, e);
            assert(es.len() == i);
            assert(external_entries_text(m.kvs().take(i + 1)) =~= es.push(e)) by {
                assert(m.kvs().take(i + 1) =~= m.kvs().take(i as int).push(m.kvs()[i as int]));
            }
            assert(out@ =~= old(out)@ + seq!['{'] + pairs_body(es.push(e)));
        }
        i = i + 1;
    }
    out.append("}");
    proof {
        assert(m.kvs().take(n as int) =~= m.kvs());
        assert(out@ =~= old(out)@ + render_pairs(external_entries_text(m.kvs())));
    }
}

/// Appends the controller's peers as a rendered object.
#[verifier::rlimit(50)]
fn append_peers(out: &mut String, m: &crate::strmap::StrMap<RegisteredPeer>)
    ensures
        final(out)@ == old(out)@ + render_peer_pairs(peers_entries_text(m.kvs())),
{
    proof {
        reveal_strlit("{");
        reveal_strlit("}");
        reveal_strlit(",");
        reveal_strlit(":");
        assert("{"@ =~= seq!['{']);
        assert("}"@ =~= seq!['}']);
        assert(","@ =~= seq![',']);
        assert(":"@ =~= seq![':']);
    }
    out.append("{");
    let n = m.len();
    let mut i: usize = 0;
    proof {
        assert(peers_entries_text(m.kvs().take(0)) =~= Seq::<(Seq<char>, PeerView)>::empty());
        assert(out@ =~= old(out)@ + seq!['{'] + peer_pairs_body(
            peers_entries_text(m.kvs().take(0)),
        ));
    }
    while i < n
        invariant
            n == m.kvs().len(),
            0 <= i <= n,
            out@ == old(out)@ + seq!['{'] + peer_pairs_body(
                peers_entries_text(m.kvs().take(i as int)),
            ),
            ","@ =~= seq![','],
            ":"@ =~= seq![':'],
        decreases n - i,
    {
        if i > 0 {
            out.append(",");
        }
        append_json_string(out, m.key_at(i).as_str());
        out.append(":");
        append_peer_obj(out, m.val_at(i));
        proof {
            let es = peers_entries_text(m.kvs().take(i as int));
            let e = (m.kvs()[i as int].0@, m.kvs()[i as int].1@);
            lemma_peer_pairs_body_snoc(es, e);
            assert(es.len() == i);
            assert(peers_entries_text(m.kvs().take(i + 1)) =~= es.push(e)) by {
                assert(m.kvs().take(i + 1) =~= m.kvs().take(i as int).push(m.kvs()[i as int]));
            }
            assert(out@ =~= old(out)@ + seq!['{'] + peer_pairs_body(es.push(e)));
        }
        i = i + 1;
    }
    out.append("}");
    proof {
        assert(m.kvs().take(n as int) =~= m.kvs());
        assert(out@ =~= old(out)@ + render_peer_pairs(peers_entries_text(m.kvs())));
    }
}

/// Appends the assigned addresses as a rendered object.
#[verifier::rlimit(50)]
fn append_assigned(out: &mut String, m: &crate::ipmap::IpMap<String>)
    ensures
        final(out)@ == old(out)@ + render_pairs(assigned_entries_text(m.kvs())),
{
    proof {
        reveal_strlit("{");
        reveal_strlit("}");
        reveal_strlit(",");
        reveal_strlit(":");
        assert("{"@ =~= seq!['{']);
        assert("}"@ =~= seq!['}']);
        assert(","@ =~= seq![',']);
        assert(":"@ =~= seq![':']);
    }
    out.append("{");
    let n = m.len();
    let mut i: usize = 0;
    proof {
        assert(assigned_entries_text(m.kvs().take(0)) =~= Seq::<(Seq<char>, Seq<char>)>::empty());
        assert(out@ =~= old(out)@ + seq!['{'] + pairs_body(assigned_entries_text(m.kvs().take(0))));
    }
    while i < n
        invariant
            n == m.kvs().len(),
            0 <= i <= n,
            out@ == old(out)@ + seq!['{'] + pairs_body(
                assigned_entries_text(m.kvs().take(i as int)),
            ),
            ","@ =~= seq![','],
            ":"@ =~= seq![':'],
        decreases n - i,
    {
        if i > 0 {
            out.append(",");
        }
        append_json_string(out, ipv4_to_string(m.key_at(i)).as_str());
        out.append(":");
        append_json_string(out, m.val_at(i).as_str());
        proof {
            let es = assigned_entries_text(m.kvs().take(i as int));
            let e = (ipv4_of(m.kvs()[i as int].0), m.kvs()[i as int].1@);
            lemma_pairs_body_snoc(es, e);
            assert(es.len() == i);
            assert(assigned_entries_text(m.kvs().take(i + 1)) =~= es.push(e)) by {
                assert(m.kvs().take(i + 1) =~= m.kvs().take(i as int).push(m.kvs()[i as int]));
            }
            assert(out@ =~= old(out)@ + seq!['{'] + pairs_body(es.push(e)));
        }
        i = i + 1;
    }
    out.append("}");
    proof {
        assert(m.kvs().take(n as int) =~= m.kvs());
        assert(out@ =~= old(out)@ + render_pairs(assigned_entries_text(m.kvs())));
    }
}

impl ProxyDb {
    /// The directory as its persisted document: canonical, deterministic,
    /// read back whole by [`ProxyDb::load_db`].
    #[verifier::rlimit(50)]
    pub fn save_db(&self) -> (r: String)
        ensures
            r@ == render_db_spec(*self),
    {
        proof {
            reveal_strlit("{\"internal_mapping\":");
            reveal_strlit(",\"external_mapping\":");
            reveal_strlit(",\"vpn\":");
            reveal_strlit("{\"interface_name\":");
            reveal_strlit(",\"interface_public_key\":");
            reveal_strlit(",\"peers\":");
            reveal_strlit(",\"assigned_ips\":");
            reveal_strlit("}");
            reveal_strlit("}}");
            assert("}"@ =~= seq!['}']);
        }
        let mut out: String = "{\"internal_mapping\":".to_owned();
        append_internal(&mut out, &self.internal_mapping);
        out.append(",\"external_mapping\":");
        append_external(&mut out, &self.external_mapping);
        out.append(",\"vpn\":");
        out.append("{\"interface_name\":");
        append_json_string(&mut out, self.vpn.interface_name.as_str());
        out.append(",\"interface_public_key\":");
        append_json_string(&mut out, self.vpn.interface_public_key.as_str());
        out.append(",\"peers\":");
        append_peers(&mut out, &self.vpn.peers);
        out.append(",\"assigned_ips\":");
        append_assigned(&mut out, &self.vpn.assigned_ips);
        out.append("}");
        out.append("}");
        proof {
            assert(render_vpn_spec(
                self.vpn.interface_name@,
                self.vpn.interface_public_key@,
                peers_entries_text(self.vpn.peers.kvs()),
                assigned_entries_text(self.vpn.assigned_ips.kvs()),
            ) =~= "{\"interface_name\":"@ + render_string(self.vpn.interface_name@)
                + ",\"interface_public_key\":"@ + render_string(self.vpn.interface_public_key@)
                + ",\"peers\":"@ + render_peer_pairs(peers_entries_text(self.vpn.peers.kvs()))
                + ",\"assigned_ips\":"@ + render_pairs(
                assigned_entries_text(self.vpn.assigned_ips.kvs()),
            ) + seq!['}']);
            assert(out@ =~= render_db_spec(*self));
        }
        out
    }
}

/// Consumes the literal `lit` at `pos`, if it stands there.
pub fn eat_lit(s: &str, pos: usize, lit: &str) -> (r: Option<usize>)
    requires
        pos <= s@.len(),
    ensures
        match r {
            Some(p2) => pos <= p2 <= s@.len() && expect_lit(s@.skip(pos as int), lit@) == Some(
                s@.skip(p2 as int),
            ),
            None => expect_lit(s@.skip(pos as int), lit@) is None,
        },
{
    let n = s.unicode_len();
    let m = lit.unicode_len();
    if m > n - pos {
        return None;
    }
    let mut j: usize = 0;
    while j < m
        invariant
            n == s@.len(),
            m == lit@.len(),
            pos + m <= n,
            0 <= j <= m,
            forall|t: int| 0 <= t < j ==> s@[pos + t] == lit@[t],
        decreases m - j,
    {
        if s.get_char(pos + j) != lit.get_char(j) {
            proof {
                assert(s@.skip(pos as int)[j as int] == s@[pos + j]);
                if s@.skip(pos as int).len() >= lit@.len() && s@.skip(pos as int).take(
                    lit@.len() as int,
                ) == lit@ {
                    assert(s@.skip(pos as int).take(lit@.len() as int)[j as int] == lit@[j as int]);
                }
            }
            return None;
        }
        j = j + 1;
    }
    proof {
        assert(s@.skip(pos as int).take(m as int) =~= lit@);
        assert(s@.skip(pos as int).skip(m as int) =~= s@.skip(pos + m));
    }
    Some(pos + m)
}

/// Reads `null` or a JSON string at `pos`.
pub fn parse_opt_string_at(s: &str, pos: usize) -> (r: Option<(Option<String>, usize)>)
    requires
        pos <= s@.len(),
    ensures
        match r {
            Some((v, p2)) => pos <= p2 <= s@.len() && parse_opt_string_spec(s@.skip(pos as int))
                == Some(
                (
                    match v {
                        Some(x) => Some(x@),
                        None => None::<Seq<char>>,
                    },
                    s@.skip(p2 as int),
                ),
            ),
            None => parse_opt_string_spec(s@.skip(pos as int)) is None,
        },
{
    match eat_lit(s, pos, "null") {
        Some(p2) => Some((None, p2)),
        None => match parse_json_string(s, pos) {
            Some((v, p2)) => Some((Some(v), p2)),
            None => None,
        },
    }
}

/// Reads a directory row at `pos`.
pub fn parse_info_at(s: &str, pos: usize) -> (r: Option<(PeerInfo, usize)>)
    requires
        pos <= s@.len(),
    ensures
        match r {
            Some((v, p2)) => pos <= p2 <= s@.len() && parse_info_spec(s@.skip(pos as int)) == Some(
                (v@, s@.skip(p2 as int)),
            ),
            None => parse_info_spec(s@.skip(pos as int)) is None,
        },
{
    proof {
        assert("}"@ =~= seq!['}']) by {
            reveal_strlit("}");
        }
    }
    let p1 = match eat_lit(s, pos, "{\"id\":") {
        Some(p) => p,
        None => {
            return None;
        },
    };
    let (id, p2) = match parse_json_string(s, p1) {
        Some(x) => x,
        None => {
            return None;
        },
    };
    let p3 = match eat_lit(s, p2, ",\"public_ip\":") {
        Some(p) => p,
        None => {
            return None;
        },
    };
    let (public_ip, p4) = match parse_json_string(s, p3) {
        Some(x) => x,
        None => {
            return None;
        },
    };
    let p5 = match eat_lit(s, p4, "}") {
        Some(p) => p,
        None => {
            return None;
        },
    };
    proof {
        assert("}"@ =~= seq!['}']) by {
            reveal_strlit("}");
        }
    }
    Some((PeerInfo { id, public_ip }, p5))
}

/// Reads a controller peer at `pos`.
pub fn parse_peer_at(s: &str, pos: usize) -> (r: Option<(RegisteredPeer, usize)>)
    requires
        pos <= s@.len(),
    ensures
        match r {
            Some((v, p2)) => pos <= p2 <= s@.len() && parse_peer_spec(s@.skip(pos as int)) == Some(
                (v@, s@.skip(p2 as int)),
            ),
            None => parse_peer_spec(s@.skip(pos as int)) is None,
        },
{
    proof {
        assert("}"@ =~= seq!['}']) by {
            reveal_strlit("}");
        }
    }
    let p1 = match eat_lit(s, pos, "{\"public_key\":") {
        Some(p) => p,
        None => {
            return None;
        },
    };
    let (public_key, p2) = match parse_json_string(s, p1) {
        Some(x) => x,
        None => {
            return None;
        },
    };
    let p3 = match eat_lit(s, p2, ",\"preshared_key\":") {
        Some(p) => p,
        None => {
            return None;
        },
    };
    let (preshared_key, p4) = match parse_opt_string_at(s, p3) {
        Some(x) => x,
        None => {
            return None;
        },
    };
    let p5 = match eat_lit(s, p4, ",\"remote_address\":") {
        Some(p) => p,
        None => {
            return None;
        },
    };
    let (ra_text, p6) = match parse_opt_string_at(s, p5) {
        Some(x) => x,
        None => {
            return None;
        },
    };
    let remote_address = match &ra_text {
        Some(t) => match parse_endpoint(t.as_str()) {
            Some(ep) => Some(ep),
            None => {
                return None;
            },
        },
        None => None,
    };
    let p7 = match eat_lit(s, p6, ",\"allowed_ips\":") {
        Some(p) => p,
        None => {
            return None;
        },
    };
    let (ips_str, p8) = match parse_json_string(s, p7) {
        Some(x) => x,
        None => {
            return None;
        },
    };
    let p9 = match eat_lit(s, p8, "}") {
        Some(p) => p,
        None => {
            return None;
        },
    };
    let allowed_ips = parse_allowed_ips(ips_str.as_str());
    proof {
        assert("}"@ =~= seq!['}']) by {
            reveal_strlit("}");
        }
    }
    Some((RegisteredPeer { public_key, preshared_key, remote_address, allowed_ips }, p9))
}


/// The entry views of str_pairs.
pub open spec fn str_pair_views(es: Seq<(String, String)>) -> Seq<(Seq<char>, Seq<char>)> {
    es.map_values(|e: (String, String)| (e.0@, e.1@))
}

proof fn lemma_str_pair_views_push(es: Seq<(String, String)>, e: (String, String))
    ensures
        str_pair_views(es.push(e)) =~= str_pair_views(es).push((e.0@, e.1@)),
{
    assert forall|j: int|
        0 <= j < es.push(e).len() implies str_pair_views(es.push(e))[j] == str_pair_views(es).push(
        (e.0@, e.1@),
    )[j] by {
        if j < es.len() {
            assert(es.push(e)[j] == es[j]);
        } else {
            assert(es.push(e)[j] == e);
        }
    }
}

/// Reads an object of str_pairs at `pos`.
#[verifier::rlimit(60)]
pub fn parse_str_pairs_at(s: &str, pos: usize) -> (r: Option<(Vec<(String, String)>, usize)>)
    requires
        pos <= s@.len(),
    ensures
        match r {
            Some((es, p2)) => pos <= p2 <= s@.len() && parse_pairs_spec(s@.skip(pos as int)) == Some(
                (str_pair_views(es@), s@.skip(p2 as int)),
            ),
            None => parse_pairs_spec(s@.skip(pos as int)) is None,
        },
{
    let n = s.unicode_len();
    if pos >= n || s.get_char(pos) != '{' {
        proof {
            if pos < n {
                assert(s@.skip(pos as int)[0] == s@[pos as int]);
            }
        }
        return None;
    }
    proof {
        assert(s@.skip(pos as int)[0] == s@[pos as int]);
    }
    if pos + 1 < n && s.get_char(pos + 1) == '}' {
        let empty: Vec<(String, String)> = Vec::new();
        proof {
            assert(s@.skip(pos as int)[1] == s@[pos + 1]);
            assert(s@.skip(pos as int).skip(2) =~= s@.skip(pos + 2));
            assert(str_pair_views(empty@) =~= Seq::<(Seq<char>, Seq<char>)>::empty());
        }
        return Some((empty, pos + 2));
    }
    if pos + 1 >= n {
        proof {
            assert(s@.skip(pos + 1) =~= Seq::<char>::empty());
            assert(s@.skip(pos as int).drop_first() =~= s@.skip(pos + 1));
        }
        return None;
    }
    proof {
        assert(s@.skip(pos as int)[1] == s@[pos + 1]);
        assert(s@.skip(pos as int).drop_first() =~= s@.skip(pos + 1));
        assert(s@.skip(pos as int).len() >= 2);
    }
    let mut acc: Vec<(String, String)> = Vec::new();
    let mut cur: usize = pos + 1;
    proof {
        assert(str_pair_views(acc@) =~= Seq::<(Seq<char>, Seq<char>)>::empty());
    }
    loop
        invariant
            n == s@.len(),
            pos + 1 <= cur <= n,
            parse_pairs_spec(s@.skip(pos as int)) == (match scan_pairs(s@.skip(cur as int)) {
                Some((es, r)) => Some::<(Seq<(Seq<char>, Seq<char>)>, Seq<char>)>(
                    (str_pair_views(acc@) + es, r),
                ),
                None => None::<(Seq<(Seq<char>, Seq<char>)>, Seq<char>)>,
            }),
        decreases n - cur,
    {
        let (k, p1) = match parse_json_string(s, cur) {
            Some(x) => x,
            None => {
                return None;
            },
        };
        if p1 >= n || s.get_char(p1) != ':' {
            proof {
                if p1 < n {
                    assert(s@.skip(p1 as int)[0] == s@[p1 as int]);
                } else {
                    assert(s@.skip(p1 as int) =~= Seq::<char>::empty());
                }
            }
            return None;
        }
        proof {
            assert(s@.skip(p1 as int)[0] == s@[p1 as int]);
            assert(s@.skip(p1 as int).drop_first() =~= s@.skip(p1 + 1));
        }
        let (v, p2) = match parse_json_string(s, p1 + 1) {
            Some(x) => x,
            None => {
                return None;
            },
        };
        if p2 >= n {
            proof {
                assert(s@.skip(p2 as int) =~= Seq::<char>::empty());
            }
            return None;
        }
        let ghost acc_before = acc@;
        let sep = s.get_char(p2);
        proof {
            assert(s@.skip(p2 as int)[0] == s@[p2 as int]);
            assert(s@.skip(p2 as int).drop_first() =~= s@.skip(p2 + 1));
        }
        acc.push((k, v));
        proof {
            lemma_str_pair_views_push(acc_before, acc@.last());
            assert(str_pair_views(acc@) =~= str_pair_views(acc_before).push(
                (acc@.last().0@, acc@.last().1@),
            ));
        }
        if sep == ',' {
            proof {
                match scan_pairs(s@.skip(p2 + 1)) {
                    Some((es, r)) => {
                        assert(str_pair_views(acc_before) + (seq![(acc@.last().0@, acc@.last().1@)]
                            + es) =~= str_pair_views(acc@) + es);
                    },
                    None => {},
                }
            }
            cur = p2 + 1;
        } else if sep == '}' {
            proof {
                assert(str_pair_views(acc_before) + seq![(acc@.last().0@, acc@.last().1@)] =~= str_pair_views(
                    acc@,
                ));
            }
            return Some((acc, p2 + 1));
        } else {
            return None;
        }
    }
}

/// The entry views of info_pairs.
pub open spec fn info_pair_views(es: Seq<(String, PeerInfo)>) -> Seq<(Seq<char>, PeerInfoView)> {
    es.map_values(|e: (String, PeerInfo)| (e.0@, e.1@))
}

proof fn lemma_info_pair_views_push(es: Seq<(String, PeerInfo)>, e: (String, PeerInfo))
    ensures
        info_pair_views(es.push(e)) =~= info_pair_views(es).push((e.0@, e.1@)),
{
    assert forall|j: int|
        0 <= j < es.push(e).len() implies info_pair_views(es.push(e))[j] == info_pair_views(es).push(
        (e.0@, e.1@),
    )[j] by {
        if j < es.len() {
            assert(es.push(e)[j] == es[j]);
        } else {
            assert(es.push(e)[j] == e);
        }
    }
}

/// Reads an object of info_pairs at `pos`.
#[verifier::rlimit(60)]
pub fn parse_info_pairs_at(s: &str, pos: usize) -> (r: Option<(Vec<(String, PeerInfo)>, usize)>)
    requires
        pos <= s@.len(),
    ensures
        match r {
            Some((es, p2)) => pos <= p2 <= s@.len() && parse_info_pairs_spec(s@.skip(pos as int)) == Some(
                (info_pair_views(es@), s@.skip(p2 as int)),
            ),
            None => parse_info_pairs_spec(s@.skip(pos as int)) is None,
        },
{
    let n = s.unicode_len();
    if pos >= n || s.get_char(pos) != '{' {
        proof {
            if pos < n {
                assert(s@.skip(pos as int)[0] == s@[pos as int]);
            }
        }
        return None;
    }
    proof {
        assert(s@.skip(pos as int)[0] == s@[pos as int]);
    }
    if pos + 1 < n && s.get_char(pos + 1) == '}' {
        let empty: Vec<(String, PeerInfo)> = Vec::new();
        proof {
            assert(s@.skip(pos as int)[1] == s@[pos + 1]);
            assert(s@.skip(pos as int).skip(2) =~= s@.skip(pos + 2));
            assert(info_pair_views(empty@) =~= Seq::<(Seq<char>, PeerInfoView)>::empty());
        }
        return Some((empty, pos + 2));
    }
    if pos + 1 >= n {
        proof {
            assert(s@.skip(pos + 1) =~= Seq::<char>::empty());
            assert(s@.skip(pos as int).drop_first() =~= s@.skip(pos + 1));
        }
        return None;
    }
    proof {
        assert(s@.skip(pos as int)[1] == s@[pos + 1]);
        assert(s@.skip(pos as int).drop_first() =~= s@.skip(pos + 1));
        assert(s@.skip(pos as int).len() >= 2);
    }
    let mut acc: Vec<(String, PeerInfo)> = Vec::new();
    let mut cur: usize = pos + 1;
    proof {
        assert(info_pair_views(acc@) =~= Seq::<(Seq<char>, PeerInfoView)>::empty());
    }
    loop
        invariant
            n == s@.len(),
            pos + 1 <= cur <= n,
            parse_info_pairs_spec(s@.skip(pos as int)) == (match scan_info_pairs(s@.skip(cur as int)) {
                Some((es, r)) => Some::<(Seq<(Seq<char>, PeerInfoView)>, Seq<char>)>(
                    (info_pair_views(acc@) + es, r),
                ),
                None => None::<(Seq<(Seq<char>, PeerInfoView)>, Seq<char>)>,
            }),
        decreases n - cur,
    {
        let (k, p1) = match parse_json_string(s, cur) {
            Some(x) => x,
            None => {
                return None;
            },
        };
        if p1 >= n || s.get_char(p1) != ':' {
            proof {
                if p1 < n {
                    assert(s@.skip(p1 as int)[0] == s@[p1 as int]);
                } else {
                    assert(s@.skip(p1 as int) =~= Seq::<char>::empty());
                }
            }
            return None;
        }
        proof {
            assert(s@.skip(p1 as int)[0] == s@[p1 as int]);
            assert(s@.skip(p1 as int).drop_first() =~= s@.skip(p1 + 1));
        }
        let (v, p2) = match parse_info_at(s, p1 + 1) {
            Some(x) => x,
            None => {
                return None;
            },
        };
        if p2 >= n {
            proof {
                assert(s@.skip(p2 as int) =~= Seq::<char>::empty());
            }
            return None;
        }
        let ghost acc_before = acc@;
        let sep = s.get_char(p2);
        proof {
            assert(s@.skip(p2 as int)[0] == s@[p2 as int]);
            assert(s@.skip(p2 as int).drop_first() =~= s@.skip(p2 + 1));
        }
        acc.push((k, v));
        proof {
            lemma_info_pair_views_push(acc_before, acc@.last());
            assert(info_pair_views(acc@) =~= info_pair_views(acc_before).push(
                (acc@.last().0@, acc@.last().1@),
            ));
        }
        if sep == ',' {
            proof {
                match scan_info_pairs(s@.skip(p2 + 1)) {
                    Some((es, r)) => {
                        assert(info_pair_views(acc_before) + (seq![(acc@.last().0@, acc@.last().1@)]
                            + es) =~= info_pair_views(acc@) + es);
                    },
                    None => {},
                }
            }
            cur = p2 + 1;
        } else if sep == '}' {
            proof {
                assert(info_pair_views(acc_before) + seq![(acc@.last().0@, acc@.last().1@)] =~= info_pair_views(
                    acc@,
                ));
            }
            return Some((acc, p2 + 1));
        } else {
            return None;
        }
    }
}

/// The entry views of peer_pairs.
pub open spec fn peer_pair_views(es: Seq<(String, RegisteredPeer)>) -> Seq<(Seq<char>, PeerView)> {
    es.map_values(|e: (String, RegisteredPeer)| (e.0@, e.1@))
}

proof fn lemma_peer_pair_views_push(es: Seq<(String, RegisteredPeer)>, e: (String, RegisteredPeer))
    ensures
        peer_pair_views(es.push(e)) =~= peer_pair_views(es).push((e.0@, e.1@)),
{
    assert forall|j: int|
        0 <= j < es.push(e).len() implies peer_pair_views(es.push(e))[j] == peer_pair_views(es).push(
        (e.0@, e.1@),
    )[j] by {
        if j < es.len() {
            assert(es.push(e)[j] == es[j]);
        } else {
            assert(es.push(e)[j] == e);
        }
    }
}

/// Reads an object of peer_pairs at `pos`.
#[verifier::rlimit(60)]
pub fn parse_peer_pairs_at(s: &str, pos: usize) -> (r: Option<(Vec<(String, RegisteredPeer)>, usize)>)
    requires
        pos <= s@.len(),
    ensures
        match r {
            Some((es, p2)) => pos <= p2 <= s@.len() && parse_peer_pairs_spec(s@.skip(pos as int)) == Some(
                (peer_pair_views(es@), s@.skip(p2 as int)),
            ),
            None => parse_peer_pairs_spec(s@.skip(pos as int)) is None,
        },
{
    let n = s.unicode_len();
    if pos >= n || s.get_char(pos) != '{' {
        proof {
            if pos < n {
                assert(s@.skip(pos as int)[0] == s@[pos as int]);
            }
        }
        return None;
    }
    proof {
        assert(s@.skip(pos as int)[0] == s@[pos as int]);
    }
    if pos + 1 < n && s.get_char(pos + 1) == '}' {
        let empty: Vec<(String, RegisteredPeer)> = Vec::new();
        proof {
            assert(s@.skip(pos as int)[1] == s@[pos + 1]);
            assert(s@.skip(pos as int).skip(2) =~= s@.skip(pos + 2));
            assert(peer_pair_views(empty@) =~= Seq::<(Seq<char>, PeerView)>::empty());
        }
        return Some((empty, pos + 2));
    }
    if pos + 1 >= n {
        proof {
            assert(s@.skip(pos + 1) =~= Seq::<char>::empty());
            assert(s@.skip(pos as int).drop_first() =~= s@.skip(pos + 1));
        }
        return None;
    }
    proof {
        assert(s@.skip(pos as int)[1] == s@[pos + 1]);
        assert(s@.skip(pos as int).drop_first() =~= s@.skip(pos + 1));
        assert(s@.skip(pos as int).len() >= 2);
    }
    let mut acc: Vec<(String, RegisteredPeer)> = Vec::new();
    let mut cur: usize = pos + 1;
    proof {
        assert(peer_pair_views(acc@) =~= Seq::<(Seq<char>, PeerView)>::empty());
    }
    loop
        invariant
            n == s@.len(),
            pos + 1 <= cur <= n,
            parse_peer_pairs_spec(s@.skip(pos as int)) == (match scan_peer_pairs(s@.skip(cur as int)) {
                Some((es, r)) => Some::<(Seq<(Seq<char>, PeerView)>, Seq<char>)>(
                    (peer_pair_views(acc@) + es, r),
                ),
                None => None::<(Seq<(Seq<char>, PeerView)>, Seq<char>)>,
            }),
        decreases n - cur,
    {
        let (k, p1) = match parse_json_string(s, cur) {
            Some(x) => x,
            None => {
                return None;
            },
        };
        if p1 >= n || s.get_char(p1) != ':' {
            proof {
                if p1 < n {
                    assert(s@.skip(p1 as int)[0] == s@[p1 as int]);
                } else {
                    assert(s@.skip(p1 as int) =~= Seq::<char>::empty());
                }
            }
            return None;
        }
        proof {
            assert(s@.skip(p1 as int)[0] == s@[p1 as int]);
            assert(s@.skip(p1 as int).drop_first() =~= s@.skip(p1 + 1));
        }
        let (v, p2) = match parse_peer_at(s, p1 + 1) {
            Some(x) => x,
            None => {
                return None;
            },
        };
        if p2 >= n {
            proof {
                assert(s@.skip(p2 as int) =~= Seq::<char>::empty());
            }
            return None;
        }
        let ghost acc_before = acc@;
        let sep = s.get_char(p2);
        proof {
            assert(s@.skip(p2 as int)[0] == s@[p2 as int]);
            assert(s@.skip(p2 as int).drop_first() =~= s@.skip(p2 + 1));
        }
        acc.push((k, v));
        proof {
            lemma_peer_pair_views_push(acc_before, acc@.last());
            assert(peer_pair_views(acc@) =~= peer_pair_views(acc_before).push(
                (acc@.last().0@, acc@.last().1@),
            ));
        }
        if sep == ',' {
            proof {
                match scan_peer_pairs(s@.skip(p2 + 1)) {
                    Some((es, r)) => {
                        assert(peer_pair_views(acc_before) + (seq![(acc@.last().0@, acc@.last().1@)]
                            + es) =~= peer_pair_views(acc@) + es);
                    },
                    None => {},
                }
            }
            cur = p2 + 1;
        } else if sep == '}' {
            proof {
                assert(peer_pair_views(acc_before) + seq![(acc@.last().0@, acc@.last().1@)] =~= peer_pair_views(
                    acc@,
                ));
            }
            return Some((acc, p2 + 1));
        } else {
            return None;
        }
    }
}

/// A text that is the canonical dotted quad of some address.
pub open spec fn canonical_ip_text(t: Seq<char>) -> bool {
    match parse_ipv4_spec(t) {
        Some(v) => ipv4_of(v) == t,
        None => false,
    }
}

/// No two entries share a key text.
pub open spec fn distinct_key_texts<T>(es: Seq<(Seq<char>, T)>) -> bool {
    forall|i: int, j: int| 0 <= i < j < es.len() ==> (#[trigger] es[i]).0 != (#[trigger] es[j]).0
}

/// What assembling the internal index accepts: canonical, distinct keys.
pub open spec fn internal_buildable(es: Seq<(Seq<char>, PeerInfoView)>) -> bool {
    &&& forall|i: int| 0 <= i < es.len() ==> canonical_ip_text((#[trigger] es[i]).0)
    &&& distinct_key_texts(es)
}

/// What assembling the external index accepts: canonical values, distinct keys.
pub open spec fn external_buildable(es: Seq<(Seq<char>, Seq<char>)>) -> bool {
    &&& forall|i: int| 0 <= i < es.len() ==> canonical_ip_text((#[trigger] es[i]).1)
    &&& distinct_key_texts(es)
}

/// What assembling the peers index accepts: distinct keys.
pub open spec fn peers_buildable(es: Seq<(Seq<char>, PeerView)>) -> bool {
    distinct_key_texts(es)
}

/// What assembling the assigned index accepts: canonical, distinct keys.
pub open spec fn assigned_buildable(es: Seq<(Seq<char>, Seq<char>)>) -> bool {
    &&& forall|i: int| 0 <= i < es.len() ==> canonical_ip_text((#[trigger] es[i]).0)
    &&& distinct_key_texts(es)
}

/// The text entries a well-formed directory writes are all assemblable:
/// every address is written canonically and no key repeats.
pub proof fn lemma_saved_buildable(d: ProxyDb)
    requires
        d.wf(),
    ensures
        internal_buildable(db_text(d).internal),
        external_buildable(db_text(d).external),
        peers_buildable(db_text(d).peers),
        assigned_buildable(db_text(d).assigned),
{
    let ti = db_text(d).internal;
    assert forall|i: int| 0 <= i < ti.len() implies canonical_ip_text((#[trigger] ti[i]).0) by {
        assert(ti[i].0 == ipv4_of(d.internal_mapping.kvs()[i].0));
        crate::ip::lemma_ipv4_roundtrip(d.internal_mapping.kvs()[i].0);
    }
    assert forall|i: int, j: int|
        0 <= i < j < ti.len() implies (#[trigger] ti[i]).0 != (#[trigger] ti[j]).0 by {
        if ti[i].0 == ti[j].0 {
            crate::ip::lemma_ipv4_of_injective(
                d.internal_mapping.kvs()[i].0,
                d.internal_mapping.kvs()[j].0,
            );
        }
    }
    let te = db_text(d).external;
    assert forall|i: int| 0 <= i < te.len() implies canonical_ip_text((#[trigger] te[i]).1) by {
        assert(te[i].1 == ipv4_of(d.external_mapping.kvs()[i].1));
        crate::ip::lemma_ipv4_roundtrip(d.external_mapping.kvs()[i].1);
    }
    assert forall|i: int, j: int|
        0 <= i < j < te.len() implies (#[trigger] te[i]).0 != (#[trigger] te[j]).0 by {
        assert(te[i].0 == d.external_mapping.kvs()[i].0@);
        assert(te[j].0 == d.external_mapping.kvs()[j].0@);
    }
    let tp = db_text(d).peers;
    assert forall|i: int, j: int|
        0 <= i < j < tp.len() implies (#[trigger] tp[i]).0 != (#[trigger] tp[j]).0 by {
        assert(tp[i].0 == d.vpn.peers.kvs()[i].0@);
        assert(tp[j].0 == d.vpn.peers.kvs()[j].0@);
    }
    let ta = db_text(d).assigned;
    assert forall|i: int| 0 <= i < ta.len() implies canonical_ip_text((#[trigger] ta[i]).0) by {
        assert(ta[i].0 == ipv4_of(d.vpn.assigned_ips.kvs()[i].0));
        crate::ip::lemma_ipv4_roundtrip(d.vpn.assigned_ips.kvs()[i].0);
    }
    assert forall|i: int, j: int|
        0 <= i < j < ta.len() implies (#[trigger] ta[i]).0 != (#[trigger] ta[j]).0 by {
        if ta[i].0 == ta[j].0 {
            crate::ip::lemma_ipv4_of_injective(
                d.vpn.assigned_ips.kvs()[i].0,
                d.vpn.assigned_ips.kvs()[j].0,
            );
        }
    }
}

/// Indices whose entries read as a well-formed directory's controller
/// entries tie together the way the controller's invariant demands.
#[verifier::rlimit(100)]
pub proof fn lemma_vpn_ties_hold(
    pm: crate::strmap::StrMap<RegisteredPeer>,
    am: crate::ipmap::IpMap<String>,
    d: ProxyDb,
)
    requires
        d.wf(),
        peers_entries_text(pm.kvs()) == peers_entries_text(d.vpn.peers.kvs()),
        assigned_entries_text(am.kvs()) == assigned_entries_text(d.vpn.assigned_ips.kvs()),
    ensures
        forall|i: int|
            0 <= i < pm.kvs().len() ==> {
                let e = #[trigger] pm.kvs()[i];
                &&& e.1.public_key@ == e.0@
                &&& e.1.allowed_ips@.len() > 0
                &&& am.contains_spec(e.1.allowed_ips@[0])
            },
        forall|i: int|
            0 <= i < am.kvs().len() ==> pm.contains_spec((#[trigger] am.kvs()[i]).1@),
{
    let dp = d.vpn.peers.kvs();
    let da = d.vpn.assigned_ips.kvs();
    assert(pm.kvs().len() == dp.len()) by {
        assert(peers_entries_text(pm.kvs()).len() == pm.kvs().len());
        assert(peers_entries_text(dp).len() == dp.len());
    }
    assert(am.kvs().len() == da.len()) by {
        assert(assigned_entries_text(am.kvs()).len() == am.kvs().len());
        assert(assigned_entries_text(da).len() == da.len());
    }
    assert forall|i: int|
        0 <= i < pm.kvs().len() implies (#[trigger] pm.kvs()[i]).0@ == dp[i].0@ && pm.kvs()[i].1@
        == dp[i].1@ by {
        assert(peers_entries_text(pm.kvs())[i] == (pm.kvs()[i].0@, pm.kvs()[i].1@));
        assert(peers_entries_text(dp)[i] == (dp[i].0@, dp[i].1@));
    }
    assert forall|i: int|
        0 <= i < am.kvs().len() implies (#[trigger] am.kvs()[i]).0 == da[i].0 && am.kvs()[i].1@
        == da[i].1@ by {
        assert(assigned_entries_text(am.kvs())[i] == (ipv4_of(am.kvs()[i].0), am.kvs()[i].1@));
        assert(assigned_entries_text(da)[i] == (ipv4_of(da[i].0), da[i].1@));
        crate::ip::lemma_ipv4_of_injective(am.kvs()[i].0, da[i].0);
    }
    assert forall|i: int|
        0 <= i < pm.kvs().len() implies {
        let e = #[trigger] pm.kvs()[i];
        &&& e.1.public_key@ == e.0@
        &&& e.1.allowed_ips@.len() > 0
        &&& am.contains_spec(e.1.allowed_ips@[0])
    } by {
        let e = pm.kvs()[i];
        assert(dp[i].1.public_key@ == dp[i].0@);
        assert(dp[i].1.allowed_ips@.len() > 0);
        assert(d.vpn.assigned_ips.contains_spec(dp[i].1.allowed_ips@[0]));
        crate::ipmap::lemma_get_some_same_keys(am.kvs(), da, e.1.allowed_ips@[0]);
        assert(e.1.allowed_ips@[0] == dp[i].1.allowed_ips@[0]);
    }
    assert forall|i: int|
        0 <= i < am.kvs().len() implies pm.contains_spec((#[trigger] am.kvs()[i]).1@) by {
        assert(d.vpn.peers.contains_spec(da[i].1@));
        crate::strmap::lemma_get_some_same_keys(pm.kvs(), dp, am.kvs()[i].1@);
    }
}

/// Indices whose entries read as a well-formed directory's index entries are
/// mutual inverses, the way the directory's invariant demands.
#[verifier::rlimit(100)]
pub proof fn lemma_db_ties_hold(
    im: crate::ipmap::IpMap<PeerInfo>,
    em: crate::strmap::StrMap<u32>,
    d: ProxyDb,
)
    requires
        d.wf(),
        internal_entries_text(im.kvs()) == internal_entries_text(d.internal_mapping.kvs()),
        external_entries_text(em.kvs()) == external_entries_text(d.external_mapping.kvs()),
    ensures
        forall|i: int|
            0 <= i < em.kvs().len() ==> {
                let e = #[trigger] em.kvs()[i];
                match im.get_spec(e.1) {
                    Some(info) => info.id@ == e.0@,
                    None => false,
                }
            },
        forall|i: int|
            0 <= i < im.kvs().len() ==> {
                let e = #[trigger] im.kvs()[i];
                em.get_spec(e.1.id@) == Some(e.0)
            },
{
    let di = d.internal_mapping.kvs();
    let de = d.external_mapping.kvs();
    assert(im.kvs().len() == di.len()) by {
        assert(internal_entries_text(im.kvs()).len() == im.kvs().len());
        assert(internal_entries_text(di).len() == di.len());
    }
    assert(em.kvs().len() == de.len()) by {
        assert(external_entries_text(em.kvs()).len() == em.kvs().len());
        assert(external_entries_text(de).len() == de.len());
    }
    assert forall|i: int|
        0 <= i < im.kvs().len() implies (#[trigger] im.kvs()[i]).0 == di[i].0 && im.kvs()[i].1@
        == di[i].1@ by {
        assert(internal_entries_text(im.kvs())[i] == (ipv4_of(im.kvs()[i].0), im.kvs()[i].1@));
        assert(internal_entries_text(di)[i] == (ipv4_of(di[i].0), di[i].1@));
        crate::ip::lemma_ipv4_of_injective(im.kvs()[i].0, di[i].0);
    }
    assert forall|i: int|
        0 <= i < em.kvs().len() implies (#[trigger] em.kvs()[i]).0@ == de[i].0@ && em.kvs()[i].1
        == de[i].1 by {
        assert(external_entries_text(em.kvs())[i] == (em.kvs()[i].0@, ipv4_of(em.kvs()[i].1)));
        assert(external_entries_text(de)[i] == (de[i].0@, ipv4_of(de[i].1)));
        crate::ip::lemma_ipv4_of_injective(em.kvs()[i].1, de[i].1);
    }
    assert forall|i: int|
        0 <= i < em.kvs().len() implies {
        let e = #[trigger] em.kvs()[i];
        match im.get_spec(e.1) {
            Some(info) => info.id@ == e.0@,
            None => false,
        }
    } by {
        let e = em.kvs()[i];
        assert(match d.internal_mapping.get_spec(de[i].1) {
            Some(info) => info.id@ == de[i].0@,
            None => false,
        });
        crate::ipmap::lemma_get_view_same_keys(im.kvs(), di, e.1);
        assert(e.1 == de[i].1);
    }
    assert forall|i: int|
        0 <= i < im.kvs().len() implies {
        let e = #[trigger] im.kvs()[i];
        em.get_spec(e.1.id@) == Some(e.0)
    } by {
        let e = im.kvs()[i];
        assert(d.external_mapping.get_spec(di[i].1.id@) == Some(di[i].0));
        crate::strmap::lemma_get_eq_same_keys(em.kvs(), de, e.1.id@);
        assert(e.1.id@ == di[i].1.id@);
        assert(e.0 == di[i].0);
    }
}

/// One more parsed row extends the internal index's text entries by one.
proof fn lemma_internal_snoc(
    kvs: Seq<(u32, PeerInfo)>,
    e: (u32, PeerInfo),
    txts: Seq<(String, PeerInfo)>,
    i: int,
)
    requires
        0 <= i < txts.len(),
        kvs.len() == i,
        internal_entries_text(kvs) == info_pair_views(txts.take(i)),
        ipv4_of(e.0) == txts[i].0@,
        e.1@ == txts[i].1@,
    ensures
        internal_entries_text(kvs.push(e)) == info_pair_views(txts.take(i + 1)),
{
    assert forall|j: int|
        0 <= j < i + 1 implies internal_entries_text(kvs.push(e))[j] == info_pair_views(
        txts.take(i + 1),
    )[j] by {
        if j < i {
            assert(kvs.push(e)[j] == kvs[j]);
            assert(internal_entries_text(kvs)[j] == info_pair_views(txts.take(i))[j]);
            assert(txts.take(i)[j] == txts[j]);
            assert(txts.take(i + 1)[j] == txts[j]);
        } else {
            assert(kvs.push(e)[j] == e);
            assert(txts.take(i + 1)[j] == txts[i]);
        }
    }
    assert(internal_entries_text(kvs.push(e)) =~= info_pair_views(txts.take(i + 1)));
}

/// One more parsed pair extends the external index's text entries by one.
proof fn lemma_external_snoc(
    kvs: Seq<(String, u32)>,
    e: (String, u32),
    txts: Seq<(String, String)>,
    i: int,
)
    requires
        0 <= i < txts.len(),
        kvs.len() == i,
        external_entries_text(kvs) == str_pair_views(txts.take(i)),
        e.0@ == txts[i].0@,
        ipv4_of(e.1) == txts[i].1@,
    ensures
        external_entries_text(kvs.push(e)) == str_pair_views(txts.take(i + 1)),
{
    assert forall|j: int|
        0 <= j < i + 1 implies external_entries_text(kvs.push(e))[j] == str_pair_views(
        txts.take(i + 1),
    )[j] by {
        if j < i {
            assert(kvs.push(e)[j] == kvs[j]);
            assert(external_entries_text(kvs)[j] == str_pair_views(txts.take(i))[j]);
            assert(txts.take(i)[j] == txts[j]);
            assert(txts.take(i + 1)[j] == txts[j]);
        } else {
            assert(kvs.push(e)[j] == e);
            assert(txts.take(i + 1)[j] == txts[i]);
        }
    }
    assert(external_entries_text(kvs.push(e)) =~= str_pair_views(txts.take(i + 1)));
}

/// One more parsed pair extends the peers index's text entries by one.
proof fn lemma_peers_snoc(
    kvs: Seq<(String, RegisteredPeer)>,
    e: (String, RegisteredPeer),
    txts: Seq<(String, RegisteredPeer)>,
    i: int,
)
    requires
        0 <= i < txts.len(),
        kvs.len() == i,
        peers_entries_text(kvs) == peer_pair_views(txts.take(i)),
        e.0@ == txts[i].0@,
        e.1@ == txts[i].1@,
    ensures
        peers_entries_text(kvs.push(e)) == peer_pair_views(txts.take(i + 1)),
{
    assert forall|j: int|
        0 <= j < i + 1 implies peers_entries_text(kvs.push(e))[j] == peer_pair_views(
        txts.take(i + 1),
    )[j] by {
        if j < i {
            assert(kvs.push(e)[j] == kvs[j]);
            assert(peers_entries_text(kvs)[j] == peer_pair_views(txts.take(i))[j]);
            assert(txts.take(i)[j] == txts[j]);
            assert(txts.take(i + 1)[j] == txts[j]);
        } else {
            assert(kvs.push(e)[j] == e);
            assert(txts.take(i + 1)[j] == txts[i]);
        }
    }
    assert(peers_entries_text(kvs.push(e)) =~= peer_pair_views(txts.take(i + 1)));
}

/// One more parsed pair extends the assigned index's text entries by one.
proof fn lemma_assigned_snoc(
    kvs: Seq<(u32, String)>,
    e: (u32, String),
    txts: Seq<(String, String)>,
    i: int,
)
    requires
        0 <= i < txts.len(),
        kvs.len() == i,
        assigned_entries_text(kvs) == str_pair_views(txts.take(i)),
        ipv4_of(e.0) == txts[i].0@,
        e.1@ == txts[i].1@,
    ensures
        assigned_entries_text(kvs.push(e)) == str_pair_views(txts.take(i + 1)),
{
    assert forall|j: int|
        0 <= j < i + 1 implies assigned_entries_text(kvs.push(e))[j] == str_pair_views(
        txts.take(i + 1),
    )[j] by {
        if j < i {
            assert(kvs.push(e)[j] == kvs[j]);
            assert(assigned_entries_text(kvs)[j] == str_pair_views(txts.take(i))[j]);
            assert(txts.take(i)[j] == txts[j]);
            assert(txts.take(i + 1)[j] == txts[j]);
        } else {
            assert(kvs.push(e)[j] == e);
            assert(txts.take(i + 1)[j] == txts[i]);
        }
    }
    assert(assigned_entries_text(kvs.push(e)) =~= str_pair_views(txts.take(i + 1)));
}

/// Builds the internal index from parsed rows: every key must be a canonical
/// dotted quad and no address may repeat.
#[verifier::rlimit(100)]
fn build_internal(entries: &Vec<(String, PeerInfo)>) -> (r: Option<IpMap<PeerInfo>>)
    ensures
        match r {
            Some(m) => m.wf() && internal_entries_text(m.kvs()) == info_pair_views(entries@),
            None => !internal_buildable(info_pair_views(entries@)),
        },
{
    let mut m: IpMap<PeerInfo> = IpMap::new();
    let n = entries.len();
    let mut i: usize = 0;
    proof {
        assert(internal_entries_text(m.kvs()) =~= info_pair_views(entries@.take(0)));
    }
    while i < n
        invariant
            n == entries@.len(),
            0 <= i <= n,
            m.wf(),
            internal_entries_text(m.kvs()) == info_pair_views(entries@.take(i as int)),
        decreases n - i,
    {
        let key_text = &entries[i].0;
        let ghost views = info_pair_views(entries@);
        proof {
            assert(views[i as int].0 == entries@[i as int].0@);
        }
        let k = match crate::ip::parse_ipv4(key_text.as_str()) {
            Some(k) => k,
            None => {
                proof {
                    assert(!canonical_ip_text(views[i as int].0));
                }
                return None;
            },
        };
        if !(ipv4_to_string(k) == *key_text) {
            proof {
                assert(!canonical_ip_text(views[i as int].0));
            }
            return None;
        }
        if m.contains(k) {
            proof {
                crate::ipmap::lemma_get_props(m.kvs(), k);
                let idx = crate::ipmap::key_index(m.kvs(), k);
                assert(m.kvs().len() == i) by {
                    assert(internal_entries_text(m.kvs()).len() == m.kvs().len());
                    assert(info_pair_views(entries@.take(i as int)).len() == i);
                }
                assert(internal_entries_text(m.kvs())[idx] == (
                    ipv4_of(m.kvs()[idx].0),
                    m.kvs()[idx].1@,
                ));
                assert(info_pair_views(entries@.take(i as int))[idx] == (
                    entries@.take(i as int)[idx].0@,
                    entries@.take(i as int)[idx].1@,
                ));
                assert(entries@.take(i as int)[idx] == entries@[idx]);
                assert(views[idx].0 == entries@[idx].0@);
                assert(views[idx].0 == ipv4_of(k));
                assert(views[i as int].0 == ipv4_of(k));
                assert(!distinct_key_texts(views));
            }
            return None;
        }
        let ghost kvs_before = m.kvs();
        m.insert_new(k, entries[i].1.duplicate());
        proof {
            assert(m.kvs() == kvs_before.push(m.kvs().last()));
            assert(kvs_before.len() == i) by {
                assert(internal_entries_text(kvs_before).len() == kvs_before.len());
                assert(info_pair_views(entries@.take(i as int)).len() == i);
            }
            assert(ipv4_of(m.kvs().last().0) == entries@[i as int].0@);
            assert(m.kvs().last().1@ == entries@[i as int].1@);
            lemma_internal_snoc(kvs_before, m.kvs().last(), entries@, i as int);
        }
        i = i + 1;
    }
    proof {
        assert(entries@.take(n as int) =~= entries@);
    }
    Some(m)
}

/// Builds the external index from parsed pairs: every value must be a
/// canonical dotted quad and no identity may repeat.
#[verifier::rlimit(100)]
fn build_external(entries: Vec<(String, String)>) -> (r: Option<StrMap<u32>>)
    ensures
        match r {
            Some(m) => m.wf() && external_entries_text(m.kvs()) == str_pair_views(entries@),
            None => !external_buildable(str_pair_views(entries@)),
        },
{
    let mut m: StrMap<u32> = StrMap::new();
    let n = entries.len();
    let mut i: usize = 0;
    proof {
        assert(external_entries_text(m.kvs()) =~= str_pair_views(entries@.take(0)));
    }
    while i < n
        invariant
            n == entries@.len(),
            0 <= i <= n,
            m.wf(),
            external_entries_text(m.kvs()) == str_pair_views(entries@.take(i as int)),
        decreases n - i,
    {
        let ghost views = str_pair_views(entries@);
        proof {
            assert(views[i as int] == (entries@[i as int].0@, entries@[i as int].1@));
        }
        let v = match crate::ip::parse_ipv4(entries[i].1.as_str()) {
            Some(v) => v,
            None => {
                proof {
                    assert(!canonical_ip_text(views[i as int].1));
                }
                return None;
            },
        };
        if !(ipv4_to_string(v) == entries[i].1) {
            proof {
                assert(!canonical_ip_text(views[i as int].1));
            }
            return None;
        }
        let key = entries[i].0.clone();
        if m.contains(&key) {
            proof {
                crate::strmap::lemma_get_props(m.kvs(), key@);
                let idx = crate::strmap::key_index(m.kvs(), key@);
                assert(m.kvs().len() == i) by {
                    assert(external_entries_text(m.kvs()).len() == m.kvs().len());
                    assert(str_pair_views(entries@.take(i as int)).len() == i);
                }
                assert(external_entries_text(m.kvs())[idx] == (
                    m.kvs()[idx].0@,
                    ipv4_of(m.kvs()[idx].1),
                ));
                assert(str_pair_views(entries@.take(i as int))[idx] == (
                    entries@.take(i as int)[idx].0@,
                    entries@.take(i as int)[idx].1@,
                ));
                assert(entries@.take(i as int)[idx] == entries@[idx]);
                assert(views[idx].0 == entries@[idx].0@);
                assert(views[idx].0 == key@);
                assert(views[i as int].0 == key@);
                assert(!distinct_key_texts(views));
            }
            return None;
        }
        let ghost kvs_before = m.kvs();
        m.insert_new(key, v);
        proof {
            assert(m.kvs() == kvs_before.push(m.kvs().last()));
            assert(kvs_before.len() == i) by {
                assert(external_entries_text(kvs_before).len() == kvs_before.len());
                assert(str_pair_views(entries@.take(i as int)).len() == i);
            }
            assert(m.kvs().last().0@ == entries@[i as int].0@);
            assert(ipv4_of(m.kvs().last().1) == entries@[i as int].1@);
            lemma_external_snoc(kvs_before, m.kvs().last(), entries@, i as int);
        }
        i = i + 1;
    }
    proof {
        assert(entries@.take(n as int) =~= entries@);
    }
    Some(m)
}

/// Builds the peers index from parsed pairs: no key may repeat.
#[verifier::rlimit(100)]
fn build_peers(entries: &Vec<(String, RegisteredPeer)>) -> (r: Option<StrMap<RegisteredPeer>>)
    ensures
        match r {
            Some(m) => m.wf() && peers_entries_text(m.kvs()) == peer_pair_views(entries@),
            None => !peers_buildable(peer_pair_views(entries@)),
        },
{
    let mut m: StrMap<RegisteredPeer> = StrMap::new();
    let n = entries.len();
    let mut i: usize = 0;
    proof {
        assert(peers_entries_text(m.kvs()) =~= peer_pair_views(entries@.take(0)));
    }
    while i < n
        invariant
            n == entries@.len(),
            0 <= i <= n,
            m.wf(),
            peers_entries_text(m.kvs()) == peer_pair_views(entries@.take(i as int)),
        decreases n - i,
    {
        let key = entries[i].0.clone();
        let ghost views = peer_pair_views(entries@);
        proof {
            assert(views[i as int] == (entries@[i as int].0@, entries@[i as int].1@));
        }
        if m.contains(&key) {
            proof {
                crate::strmap::lemma_get_props(m.kvs(), key@);
                let idx = crate::strmap::key_index(m.kvs(), key@);
                assert(m.kvs().len() == i) by {
                    assert(peers_entries_text(m.kvs()).len() == m.kvs().len());
                    assert(peer_pair_views(entries@.take(i as int)).len() == i);
                }
                assert(peers_entries_text(m.kvs())[idx] == (m.kvs()[idx].0@, m.kvs()[idx].1@));
                assert(peer_pair_views(entries@.take(i as int))[idx] == (
                    entries@.take(i as int)[idx].0@,
                    entries@.take(i as int)[idx].1@,
                ));
                assert(entries@.take(i as int)[idx] == entries@[idx]);
                assert(views[idx].0 == entries@[idx].0@);
                assert(views[idx].0 == key@);
                assert(views[i as int].0 == key@);
                assert(!distinct_key_texts(views));
            }
            return None;
        }
        let ghost kvs_before = m.kvs();
        m.insert_new(key, entries[i].1.duplicate());
        proof {
            assert(m.kvs() == kvs_before.push(m.kvs().last()));
            assert(kvs_before.len() == i) by {
                assert(peers_entries_text(kvs_before).len() == kvs_before.len());
                assert(peer_pair_views(entries@.take(i as int)).len() == i);
            }
            assert(m.kvs().last().0@ == entries@[i as int].0@);
            assert(m.kvs().last().1@ == entries@[i as int].1@);
            lemma_peers_snoc(kvs_before, m.kvs().last(), entries@, i as int);
        }
        i = i + 1;
    }
    proof {
        assert(entries@.take(n as int) =~= entries@);
    }
    Some(m)
}

/// Builds the assigned-address index from parsed pairs: every key must be a
/// canonical dotted quad and no address may repeat.
#[verifier::rlimit(100)]
fn build_assigned(entries: Vec<(String, String)>) -> (r: Option<IpMap<String>>)
    ensures
        match r {
            Some(m) => m.wf() && assigned_entries_text(m.kvs()) == str_pair_views(entries@),
            None => !assigned_buildable(str_pair_views(entries@)),
        },
{
    let mut m: IpMap<String> = IpMap::new();
    let n = entries.len();
    let mut i: usize = 0;
    proof {
        assert(assigned_entries_text(m.kvs()) =~= str_pair_views(entries@.take(0)));
    }
    while i < n
        invariant
            n == entries@.len(),
            0 <= i <= n,
            m.wf(),
            assigned_entries_text(m.kvs()) == str_pair_views(entries@.take(i as int)),
        decreases n - i,
    {
        let ghost views = str_pair_views(entries@);
        proof {
            assert(views[i as int] == (entries@[i as int].0@, entries@[i as int].1@));
        }
        let k = match crate::ip::parse_ipv4(entries[i].0.as_str()) {
            Some(k) => k,
            None => {
                proof {
                    assert(!canonical_ip_text(views[i as int].0));
                }
                return None;
            },
        };
        if !(ipv4_to_string(k) == entries[i].0) {
            proof {
                assert(!canonical_ip_text(views[i as int].0));
            }
            return None;
        }
        if m.contains(k) {
            proof {
                crate::ipmap::lemma_get_props(m.kvs(), k);
                let idx = crate::ipmap::key_index(m.kvs(), k);
                assert(m.kvs().len() == i) by {
                    assert(assigned_entries_text(m.kvs()).len() == m.kvs().len());
                    assert(str_pair_views(entries@.take(i as int)).len() == i);
                }
                assert(assigned_entries_text(m.kvs())[idx] == (
                    ipv4_of(m.kvs()[idx].0),
                    m.kvs()[idx].1@,
                ));
                assert(str_pair_views(entries@.take(i as int))[idx] == (
                    entries@.take(i as int)[idx].0@,
                    entries@.take(i as int)[idx].1@,
                ));
                assert(entries@.take(i as int)[idx] == entries@[idx]);
                assert(views[idx].0 == entries@[idx].0@);
                assert(views[idx].0 == ipv4_of(k));
                assert(views[i as int].0 == ipv4_of(k));
                assert(!distinct_key_texts(views));
            }
            return None;
        }
        let ghost kvs_before = m.kvs();
        m.insert_new(k, entries[i].1.clone());
        proof {
            assert(m.kvs() == kvs_before.push(m.kvs().last()));
            assert(kvs_before.len() == i) by {
                assert(assigned_entries_text(kvs_before).len() == kvs_before.len());
                assert(str_pair_views(entries@.take(i as int)).len() == i);
            }
            assert(ipv4_of(m.kvs().last().0) == entries@[i as int].0@);
            assert(m.kvs().last().1@ == entries@[i as int].1@);
            lemma_assigned_snoc(kvs_before, m.kvs().last(), entries@, i as int);
        }
        i = i + 1;
    }
    proof {
        assert(entries@.take(n as int) =~= entries@);
    }
    Some(m)
}

/// Whether the two controller indices tie together as the controller's
/// invariant demands.
#[verifier::rlimit(100)]
fn check_vpn_ties(peers: &StrMap<RegisteredPeer>, assigned: &IpMap<String>) -> (r: bool)
    ensures
        r == ({
            &&& forall|i: int|
                0 <= i < peers.kvs().len() ==> {
                    let e = #[trigger] peers.kvs()[i];
                    &&& e.1.public_key@ == e.0@
                    &&& e.1.allowed_ips@.len() > 0
                    &&& assigned.contains_spec(e.1.allowed_ips@[0])
                }
            &&& forall|i: int|
                0 <= i < assigned.kvs().len() ==> peers.contains_spec(
                    (#[trigger] assigned.kvs()[i]).1@,
                )
        }),
{
    let n = peers.len();
    let mut i: usize = 0;
    while i < n
        invariant
            n == peers.kvs().len(),
            0 <= i <= n,
            forall|j: int|
                0 <= j < i ==> {
                    let e = #[trigger] peers.kvs()[j];
                    &&& e.1.public_key@ == e.0@
                    &&& e.1.allowed_ips@.len() > 0
                    &&& assigned.contains_spec(e.1.allowed_ips@[0])
                },
        decreases n - i,
    {
        let entry = peers.val_at(i);
        let key = peers.key_at(i);
        if !(entry.public_key == *key) {
            return false;
        }
        if entry.allowed_ips.len() == 0 {
            return false;
        }
        if !assigned.contains(entry.allowed_ips[0]) {
            return false;
        }
        i = i + 1;
    }
    let m = assigned.len();
    let mut j: usize = 0;
    while j < m
        invariant
            n == peers.kvs().len(),
            m == assigned.kvs().len(),
            0 <= j <= m,
            forall|t: int|
                0 <= t < n ==> {
                    let e = #[trigger] peers.kvs()[t];
                    &&& e.1.public_key@ == e.0@
                    &&& e.1.allowed_ips@.len() > 0
                    &&& assigned.contains_spec(e.1.allowed_ips@[0])
                },
            forall|t: int|
                0 <= t < j ==> peers.contains_spec((#[trigger] assigned.kvs()[t]).1@),
        decreases m - j,
    {
        if !peers.contains(assigned.val_at(j)) {
            return false;
        }
        j = j + 1;
    }
    true
}

/// Whether the two directory indices are mutual inverses.
#[verifier::rlimit(100)]
fn check_db_ties(internal: &IpMap<PeerInfo>, external: &StrMap<u32>) -> (r: bool)
    ensures
        r == ({
            &&& forall|i: int|
                0 <= i < external.kvs().len() ==> {
                    let e = #[trigger] external.kvs()[i];
                    match internal.get_spec(e.1) {
                        Some(info) => info.id@ == e.0@,
                        None => false,
                    }
                }
            &&& forall|i: int|
                0 <= i < internal.kvs().len() ==> {
                    let e = #[trigger] internal.kvs()[i];
                    external.get_spec(e.1.id@) == Some(e.0)
                }
        }),
{
    let n = external.len();
    let mut i: usize = 0;
    while i < n
        invariant
            n == external.kvs().len(),
            0 <= i <= n,
            forall|j: int|
                0 <= j < i ==> {
                    let e = #[trigger] external.kvs()[j];
                    match internal.get_spec(e.1) {
                        Some(info) => info.id@ == e.0@,
                        None => false,
                    }
                },
        decreases n - i,
    {
        let ip = *external.val_at(i);
        let key = external.key_at(i);
        match internal.get(ip) {
            Some(info) => {
                if !(info.id == *key) {
                    return false;
                }
            },
            None => {
                return false;
            },
        }
        i = i + 1;
    }
    let m = internal.len();
    let mut j: usize = 0;
    while j < m
        invariant
            n == external.kvs().len(),
            m == internal.kvs().len(),
            0 <= j <= m,
            forall|t: int|
                0 <= t < n ==> {
                    let e = #[trigger] external.kvs()[t];
                    match internal.get_spec(e.1) {
                        Some(info) => info.id@ == e.0@,
                        None => false,
                    }
                },
            forall|t: int|
                0 <= t < j ==> {
                    let e = #[trigger] internal.kvs()[t];
                    external.get_spec(e.1.id@) == Some(e.0)
                },
        decreases m - j,
    {
        let row = internal.val_at(j);
        let ip = internal.key_at(j);
        match external.get(&row.id) {
            Some(back) => {
                if *back != ip {
                    return false;
                }
            },
            None => {
                return false;
            },
        }
        j = j + 1;
    }
    true
}

/// The six raw pieces of a parsed document, before assembly.
pub struct DocParts {
    pub internal: Vec<(String, PeerInfo)>,
    pub external: Vec<(String, String)>,
    pub interface_name: String,
    pub interface_public_key: String,
    pub peers: Vec<(String, RegisteredPeer)>,
    pub assigned: Vec<(String, String)>,
}

/// What a parsed document's pieces read as.
pub open spec fn doc_parts_text(parts: DocParts) -> DbText {
    DbText {
        internal: info_pair_views(parts.internal@),
        external: str_pair_views(parts.external@),
        interface_name: parts.interface_name@,
        interface_public_key: parts.interface_public_key@,
        peers: peer_pair_views(parts.peers@),
        assigned: str_pair_views(parts.assigned@),
    }
}

/// Reads the whole canonical document, or nothing exactly when the text does
/// not have that shape.
#[verifier::rlimit(100)]
fn parse_document(s: &str) -> (r: Option<DocParts>)
    ensures
        match r {
            Some(parts) => parse_db_spec(s@) == Some(doc_parts_text(parts)),
            None => parse_db_spec(s@) is None,
        },
{
    proof {
        assert(s@.skip(0) =~= s@);
        assert("}"@ =~= seq!['}']) by {
            reveal_strlit("}");
        }
    }
    let n = s.unicode_len();
    let p1 = match eat_lit(s, 0, "{\"internal_mapping\":") {
        Some(p) => p,
        None => {
            return None;
        },
    };
    let (internal, p2) = match parse_info_pairs_at(s, p1) {
        Some(x) => x,
        None => {
            return None;
        },
    };
    let p3 = match eat_lit(s, p2, ",\"external_mapping\":") {
        Some(p) => p,
        None => {
            return None;
        },
    };
    let (external, p4) = match parse_str_pairs_at(s, p3) {
        Some(x) => x,
        None => {
            return None;
        },
    };
    let p5 = match eat_lit(s, p4, ",\"vpn\":") {
        Some(p) => p,
        None => {
            return None;
        },
    };
    let p6 = match eat_lit(s, p5, "{\"interface_name\":") {
        Some(p) => p,
        None => {
            return None;
        },
    };
    let (interface_name, p7) = match parse_json_string(s, p6) {
        Some(x) => x,
        None => {
            return None;
        },
    };
    let p8 = match eat_lit(s, p7, ",\"interface_public_key\":") {
        Some(p) => p,
        None => {
            return None;
        },
    };
    let (interface_public_key, p9) = match parse_json_string(s, p8) {
        Some(x) => x,
        None => {
            return None;
        },
    };
    let p10 = match eat_lit(s, p9, ",\"peers\":") {
        Some(p) => p,
        None => {
            return None;
        },
    };
    let (peers, p11) = match parse_peer_pairs_at(s, p10) {
        Some(x) => x,
        None => {
            return None;
        },
    };
    let p12 = match eat_lit(s, p11, ",\"assigned_ips\":") {
        Some(p) => p,
        None => {
            return None;
        },
    };
    let (assigned, p13) = match parse_str_pairs_at(s, p12) {
        Some(x) => x,
        None => {
            return None;
        },
    };
    let p14 = match eat_lit(s, p13, "}") {
        Some(p) => p,
        None => {
            return None;
        },
    };
    let p15 = match eat_lit(s, p14, "}") {
        Some(p) => p,
        None => {
            return None;
        },
    };
    if p15 != n {
        return None;
    }
    proof {
        assert(s@.skip(p15 as int) =~= Seq::<char>::empty());
    }
    Some(
        DocParts {
            internal,
            external,
            interface_name,
            interface_public_key,
            peers,
            assigned,
        },
    )
}

impl ProxyDb {
    /// Reads a persisted document back into a directory. Only the canonical
    /// shape [`ProxyDb::save_db`] writes is accepted, and only when the
    /// entries assemble into well-formed, mutually inverse indices; anything
    /// else is one dump-format error. Every document that
    /// [`ProxyDb::save_db`] wrote for a well-formed directory is accepted,
    /// and it reads back as that directory, key by key — the save-then-load
    /// round trip.
    #[verifier::rlimit(100)]
    pub fn load_db(s: &str) -> (r: Result<ProxyDb, GatewayError>)
        ensures
            match r {
                Ok(db) => db.wf() && parse_db_spec(s@) == Some(db_text(db)),
                Err(e) => e == GatewayError::BadDump,
            },
            forall|d: ProxyDb| d.wf() && s@ == render_db_spec(d) ==> r is Ok,
    {
        let parts = match parse_document(s) {
            Some(parts) => parts,
            None => {
                proof {
                    assert forall|d: ProxyDb|
                        d.wf() && s@ == render_db_spec(d) implies false by {
                        lemma_save_load_roundtrip(d);
                    }
                }
                return Err(GatewayError::BadDump);
            },
        };
        let ghost text = doc_parts_text(parts);
        let internal_mapping = match build_internal(&parts.internal) {
            Some(m) => m,
            None => {
                proof {
                    assert forall|d: ProxyDb|
                        d.wf() && s@ == render_db_spec(d) implies false by {
                        lemma_save_load_roundtrip(d);
                        lemma_saved_buildable(d);
                        assert(text == db_text(d));
                    }
                }
                return Err(GatewayError::BadDump);
            },
        };
        let external_mapping = match build_external(parts.external) {
            Some(m) => m,
            None => {
                proof {
                    assert forall|d: ProxyDb|
                        d.wf() && s@ == render_db_spec(d) implies false by {
                        lemma_save_load_roundtrip(d);
                        lemma_saved_buildable(d);
                        assert(text == db_text(d));
                    }
                }
                return Err(GatewayError::BadDump);
            },
        };
        let peers = match build_peers(&parts.peers) {
            Some(m) => m,
            None => {
                proof {
                    assert forall|d: ProxyDb|
                        d.wf() && s@ == render_db_spec(d) implies false by {
                        lemma_save_load_roundtrip(d);
                        lemma_saved_buildable(d);
                        assert(text == db_text(d));
                    }
                }
                return Err(GatewayError::BadDump);
            },
        };
        let assigned_ips = match build_assigned(parts.assigned) {
            Some(m) => m,
            None => {
                proof {
                    assert forall|d: ProxyDb|
                        d.wf() && s@ == render_db_spec(d) implies false by {
                        lemma_save_load_roundtrip(d);
                        lemma_saved_buildable(d);
                        assert(text == db_text(d));
                    }
                }
                return Err(GatewayError::BadDump);
            },
        };
        if !check_vpn_ties(&peers, &assigned_ips) {
            proof {
                assert forall|d: ProxyDb|
                    d.wf() && s@ == render_db_spec(d) implies false by {
                    lemma_save_load_roundtrip(d);
                    assert(text == db_text(d));
                    lemma_vpn_ties_hold(peers, assigned_ips, d);
                }
            }
            return Err(GatewayError::BadDump);
        }
        if !check_db_ties(&internal_mapping, &external_mapping) {
            proof {
                assert forall|d: ProxyDb|
                    d.wf() && s@ == render_db_spec(d) implies false by {
                    lemma_save_load_roundtrip(d);
                    assert(text == db_text(d));
                    lemma_db_ties_hold(internal_mapping, external_mapping, d);
                }
            }
            return Err(GatewayError::BadDump);
        }
        let db = ProxyDb {
            internal_mapping,
            external_mapping,
            vpn: Vpn {
                interface_name: parts.interface_name,
                interface_public_key: parts.interface_public_key,
                peers,
                assigned_ips,
            },
        };
        proof {
            assert(parse_db_spec(s@) == Some(db_text(db)));
        }
        Ok(db)
    }
}

} // verus!
