use ipecho::endpoint::{resolve_endpoint, PeerEndpoint};
use ipecho::handler::handle_request_with;
use ipecho::headers::{find_header, Header};
use ipecho::hostname::hostname_from_lookup;
use ipecho::ip::IpAddress;

fn header(name: &[u8], value: &[u8]) -> Header {
    Header { name: name.to_vec(), value: value.to_vec() }
}

fn peer(ip: IpAddress, port: u16) -> PeerEndpoint {
    PeerEndpoint { ip, port }
}

fn body_string(peer: &PeerEndpoint, headers: &Vec<Header>, lookup: Option<&[u8]>) -> String {
    let body = handle_request_with(peer, headers, lookup.map(|h| h.to_vec()));
    String::from_utf8(body).unwrap()
}

#[test]
fn no_overrides_reports_peer() {
    let p = peer(IpAddress::V4(192, 0, 2, 77), 1234);
    let e = resolve_endpoint(&p, &vec![]);
    assert_eq!(e.ip, b"192.0.2.77".to_vec());
    assert_eq!(e.port, b"1234".to_vec());
}

#[test]
fn address_override_alone() {
    let p = peer(IpAddress::V4(10, 0, 0, 1), 9999);
    let hs = vec![header(b"X-Real-IP", b"198.51.100.7")];
    let e = resolve_endpoint(&p, &hs);
    assert_eq!(e.ip, b"198.51.100.7".to_vec());
    assert_eq!(e.port, b"9999".to_vec());
}

#[test]
fn port_override_alone_is_verbatim() {
    let p = peer(IpAddress::V4(10, 0, 0, 1), 9999);
    let hs = vec![header(b"X-Real-Port", b"not-a-number")];
    let e = resolve_endpoint(&p, &hs);
    assert_eq!(e.ip, b"10.0.0.1".to_vec());
    assert_eq!(e.port, b"not-a-number".to_vec());
}

#[test]
fn malformed_address_override_reports_zeros() {
    let p = peer(IpAddress::V4(10, 0, 0, 1), 80);
    let hs = vec![header(b"X-Real-IP", b"not-an-ip")];
    let e = resolve_endpoint(&p, &hs);
    assert_eq!(e.ip, b"0.0.0.0".to_vec());
    assert_eq!(e.port, b"80".to_vec());
}

#[test]
fn empty_override_values_fall_back_to_peer() {
    let p = peer(IpAddress::V4(192, 0, 2, 1), 8080);
    let hs = vec![header(b"X-Real-IP", b""), header(b"X-Real-Port", b"")];
    let e = resolve_endpoint(&p, &hs);
    assert_eq!(e.ip, b"192.0.2.1".to_vec());
    assert_eq!(e.port, b"8080".to_vec());
}

#[test]
fn header_lookup_ignores_ascii_case() {
    let p = peer(IpAddress::V4(10, 0, 0, 1), 1);
    let hs = vec![header(b"x-real-ip", b"198.51.100.7"), header(b"X-REAL-PORT", b"443")];
    let e = resolve_endpoint(&p, &hs);
    assert_eq!(e.ip, b"198.51.100.7".to_vec());
    assert_eq!(e.port, b"443".to_vec());
}

#[test]
fn first_matching_header_wins() {
    let hs = vec![
        header(b"Accept", b"*/*"),
        header(b"X-Real-IP", b"198.51.100.7"),
        header(b"x-real-ip", b"203.0.113.9"),
    ];
    let found = find_header(&hs, b"X-Real-IP").cloned();
    assert_eq!(found, Some(b"198.51.100.7".to_vec()));
    assert_eq!(find_header(&hs, b"X-Real-Port"), None);
}

#[test]
fn ipv6_peer_is_reported_canonically() {
    let p = peer(IpAddress::V6(0x2001, 0xdb8, 0, 0, 0, 0, 0, 7), 443);
    let e = resolve_endpoint(&p, &vec![]);
    assert_eq!(e.ip, b"2001:db8::7".to_vec());
}

#[test]
fn lookup_outcome_becomes_hostname() {
    assert_eq!(hostname_from_lookup(Some(b"host.example.com".to_vec())), b"host.example.com".to_vec());
    assert_eq!(hostname_from_lookup(None), Vec::<u8>::new());
}

#[test]
fn scenario_direct_peer_with_ptr_record() {
    let p = peer(IpAddress::V4(203, 0, 113, 5), 54321);
    let body = body_string(&p, &vec![], Some(b"host.example.com"));
    assert_eq!(
        body,
        "{\"ip\":\"203.0.113.5\",\"port\":\"54321\",\"hostname\":\"host.example.com\"}"
    );
}

#[test]
fn scenario_proxied_peer_with_failed_lookup() {
    let p = peer(IpAddress::V4(10, 0, 0, 1), 9999);
    let hs = vec![header(b"X-Real-IP", b"198.51.100.7"), header(b"X-Real-Port", b"443")];
    let body = body_string(&p, &hs, None);
    assert_eq!(body, "{\"ip\":\"198.51.100.7\",\"port\":\"443\",\"hostname\":\"\"}");
}

#[test]
fn failed_lookup_keeps_address_and_port() {
    let p = peer(IpAddress::V4(203, 0, 113, 5), 54321);
    let body = body_string(&p, &vec![], None);
    assert_eq!(body, "{\"ip\":\"203.0.113.5\",\"port\":\"54321\",\"hostname\":\"\"}");
}
