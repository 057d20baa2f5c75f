use vstd::prelude::*;
use crate::headers::{Header, spec_find_header, find_header};
use crate::ip::{IpAddress, spec_parse_ip, parse_ip, spec_format_ip, format_ip, dec_string,
    u16_to_dec};

verus! {

/// The transport-observed client endpoint of a connection.
pub struct PeerEndpoint {
    pub ip: IpAddress,
    pub port: u16,
}

/// The address and port strings to report for a request.
pub struct EffectiveEndpoint {
    pub ip: Vec<u8>,
    pub port: Vec<u8>,
}

/// The name of the address override header, `X-Real-IP`.
pub open spec fn x_real_ip_name() -> Seq<u8> {
    seq![88u8, 45u8, 82u8, 101u8, 97u8, 108u8, 45u8, 73u8, 80u8]
}

/// The name of the port override header, `X-Real-Port`.
pub open spec fn x_real_port_name() -> Seq<u8> {
    seq![88u8, 45u8, 82u8, 101u8, 97u8, 108u8, 45u8, 80u8, 111u8, 114u8, 116u8]
}

/// The text `0.0.0.0`, reported when the address override is malformed.
pub open spec fn zero_ip_text() -> Seq<u8> {
    seq![48u8, 46u8, 48u8, 46u8, 48u8, 46u8, 48u8]
}

/// The address string to report: the `X-Real-IP` value when it is present,
/// non-empty and parses as an IP address; the all-zeros text when it is
/// present and non-empty but malformed; the textual peer address otherwise.
pub open spec fn spec_effective_ip(peer: PeerEndpoint, hs: Seq<Header>) -> Seq<u8> {
    match spec_find_header(hs, x_real_ip_name()) {
        None => spec_format_ip(peer.ip),
        Some(v) => if v.len() == 0 {
            spec_format_ip(peer.ip)
        } else if spec_parse_ip(v) is Some {
            v
        } else {
            zero_ip_text()
        },
    }
}

/// The port string to report: the `X-Real-Port` value verbatim when it is
/// present and non-empty, the decimal peer port otherwise.
pub open spec fn spec_effective_port(peer: PeerEndpoint, hs: Seq<Header>) -> Seq<u8> {
    match spec_find_header(hs, x_real_port_name()) {
        None => dec_string(peer.port as int),
        Some(v) => if v.len() == 0 {
            dec_string(peer.port as int)
        } else {
            v
        },
    }
}

/// The address whose hostname is looked up: the parsed override when one is
/// present and non-empty, with the all-zeros address standing in for a
/// malformed one; the peer address otherwise.
pub open spec fn spec_lookup_address(peer: PeerEndpoint, hs: Seq<Header>) -> IpAddress {
    match spec_find_header(hs, x_real_ip_name()) {
        None => peer.ip,
        Some(v) => if v.len() == 0 {
            peer.ip
        } else {
            match spec_parse_ip(v) {
                Some(a) => a,
                None => IpAddress::V4(0, 0, 0, 0),
            }
        },
    }
}

fn x_real_ip_bytes() -> (r: Vec<u8>)
    ensures
        r@ == x_real_ip_name(),
{
    let mut v: Vec<u8> = Vec::new();
    v.push(88);
    v.push(45);
    v.push(82);
    v.push(101);
    v.push(97);
    v.push(108);
    v.push(45);
    v.push(73);
    v.push(80);
    proof {
        assert(v@ =~= x_real_ip_name());
    }
    v
}

fn x_real_port_bytes() -> (r: Vec<u8>)
    ensures
        r@ == x_real_port_name(),
{
    let mut v: Vec<u8> = Vec::new();
    v.push(88);
    v.push(45);
    v.push(82);
    v.push(101);
    v.push(97);
    v.push(108);
    v.push(45);
    v.push(80);
    v.push(111);
    v.push(114);
    v.push(116);
    proof {
        assert(v@ =~= x_real_port_name());
    }
    v
}

fn zero_ip_bytes() -> (r: Vec<u8>)
    ensures
        r@ == zero_ip_text(),
{
    let mut v: Vec<u8> = Vec::new();
    v.push(48);
    v.push(46);
    v.push(48);
    v.push(46);
    v.push(48);
    v.push(46);
    v.push(48);
    proof {
        assert(v@ =~= zero_ip_text());
    }
    v
}

fn copy_bytes(s: &Vec<u8>) -> (r: Vec<u8>)
    ensures
        r@ == s@,
{
    let mut v: Vec<u8> = Vec::new();
    let n = s.len();
    let mut k: usize = 0;
    while k < n
        invariant
            n == s@.len(),
            k <= n,
            v@ =~= s@.subrange(0, k as int),
        decreases n - k,
    {
        v.push(s[k]);
        k = k + 1;
    }
    proof {
        assert(s@.subrange(0, s@.len() as int) =~= s@);
    }
    v
}

/// Applies the override policy: produces the address and port strings to
/// report for a request with the given transport peer and headers.
pub fn resolve_endpoint(peer: &PeerEndpoint, headers: &Vec<Header>) -> (r: EffectiveEndpoint)
    ensures
        r.ip@ == spec_effective_ip(*peer, headers@),
        r.port@ == spec_effective_port(*peer, headers@),
{
    let ip_name = x_real_ip_bytes();
    let port_name = x_real_port_bytes();
    let ip: Vec<u8> = match find_header(headers, ip_name.as_slice()) {
        None => format_ip(&peer.ip),
        Some(v) => if v.len() == 0 {
            format_ip(&peer.ip)
        } else if parse_ip(v.as_slice()).is_some() {
            copy_bytes(v)
        } else {
            zero_ip_bytes()
        },
    };
    let port: Vec<u8> = match find_header(headers, port_name.as_slice()) {
        None => u16_to_dec(peer.port),
        Some(v) => if v.len() == 0 {
            u16_to_dec(peer.port)
        } else {
            copy_bytes(v)
        },
    };
    EffectiveEndpoint { ip, port }
}

/// The address to look up a hostname for, per the same override policy.
pub fn lookup_address(peer: &PeerEndpoint, headers: &Vec<Header>) -> (r: IpAddress)
    ensures
        r == spec_lookup_address(*peer, headers@),
{
    let ip_name = x_real_ip_bytes();
    match find_header(headers, ip_name.as_slice()) {
        None => peer.ip,
        Some(v) => if v.len() == 0 {
            peer.ip
        } else {
            match parse_ip(v.as_slice()) {
                Some(a) => a,
                None => IpAddress::V4(0, 0, 0, 0),
            }
        },
    }
}

/// With no override headers, the reported address is the textual form of
/// the transport peer address and the reported port is its decimal form.
pub proof fn lemma_no_overrides(peer: PeerEndpoint, hs: Seq<Header>)
    requires
        spec_find_header(hs, x_real_ip_name()) is None,
        spec_find_header(hs, x_real_port_name()) is None,
    ensures
        spec_effective_ip(peer, hs) == spec_format_ip(peer.ip),
        spec_effective_port(peer, hs) == dec_string(peer.port as int),
        spec_lookup_address(peer, hs) == peer.ip,
{
}

/// A valid, non-empty address override alone changes only the address: it
/// is reported verbatim, while the port stays the peer's decimal port.
pub proof fn lemma_address_override_only(peer: PeerEndpoint, hs: Seq<Header>, v: Seq<u8>)
    requires
        spec_find_header(hs, x_real_ip_name()) == Some(v),
        v.len() > 0,
        spec_parse_ip(v) is Some,
        spec_find_header(hs, x_real_port_name()) is None,
    ensures
        spec_effective_ip(peer, hs) == v,
        spec_effective_port(peer, hs) == dec_string(peer.port as int),
        spec_lookup_address(peer, hs) == spec_parse_ip(v).unwrap(),
{
}

/// A non-empty port override alone changes only the port: it is reported
/// verbatim, numeric or not, while the address stays the peer's.
pub proof fn lemma_port_override_only(peer: PeerEndpoint, hs: Seq<Header>, v: Seq<u8>)
    requires
        spec_find_header(hs, x_real_port_name()) == Some(v),
        v.len() > 0,
        spec_find_header(hs, x_real_ip_name()) is None,
    ensures
        spec_effective_port(peer, hs) == v,
        spec_effective_ip(peer, hs) == spec_format_ip(peer.ip),
{
}

/// A non-empty address override that does not parse as an IP address is
/// reported as the all-zeros text, never as the raw header value.
pub proof fn lemma_malformed_override(peer: PeerEndpoint, hs: Seq<Header>, v: Seq<u8>)
    requires
        spec_find_header(hs, x_real_ip_name()) == Some(v),
        v.len() > 0,
        spec_parse_ip(v) is None,
    ensures
        spec_effective_ip(peer, hs) == zero_ip_text(),
        spec_effective_ip(peer, hs) != v,
        spec_lookup_address(peer, hs) == IpAddress::V4(0, 0, 0, 0),
{
    lemma_zero_text_parses();
}

/// The reported address string is never junk: whatever the headers held,
/// it parses back as an IP address — the peer's own text parses back as the
/// peer address, a taken override parses by construction, and the fallback
/// for a malformed override is the all-zeros address text.
pub proof fn lemma_reported_ip_is_address_text(peer: PeerEndpoint, hs: Seq<Header>)
    ensures
        spec_parse_ip(spec_effective_ip(peer, hs)) is Some,
{
    lemma_zero_text_parses();
    crate::ip::lemma_format_ip_parses(peer.ip);
}

/// The all-zeros text itself parses as the all-zeros address, so a
/// malformed override is never echoed: what is reported always parses.
pub proof fn lemma_zero_text_parses()
    ensures
        spec_parse_ip(zero_ip_text()) == Some(IpAddress::V4(0, 0, 0, 0)),
{
    crate::ip::lemma_format_ipv4_parses(0, 0, 0, 0);
    assert(crate::ip::dec_string(0) =~= seq![48u8]);
    assert(crate::ip::spec_format_ipv4(0, 0, 0, 0) =~= zero_ip_text());
}

} // verus!
