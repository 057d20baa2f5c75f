use ipecho::endpoint::PeerEndpoint;
use ipecho::handler::handle_request_with;
use ipecho::headers::Header;
use ipecho::ip::IpAddress;
use ipecho::response::assemble_response;

fn make_header(name: &[u8], value: &[u8]) -> Header {
    Header { name: name.to_vec(), value: value.to_vec() }
}

fn check_shape(body: &[u8], ip: &str, port: &str, hostname: &str) {
    let text = String::from_utf8(body.to_vec()).unwrap();
    let value: serde_json::Value = serde_json::from_str(&text).unwrap();
    let object = value.as_object().unwrap();
    assert_eq!(object.len(), 3);
    assert_eq!(object.get("ip").unwrap().as_str().unwrap(), ip);
    assert_eq!(object.get("port").unwrap().as_str().unwrap(), port);
    assert_eq!(object.get("hostname").unwrap().as_str().unwrap(), hostname);
}

#[test]
fn body_is_json_with_exactly_three_string_members() {
    let p = PeerEndpoint { ip: IpAddress::V4(203, 0, 113, 5), port: 54321 };
    let body = handle_request_with(&p, &vec![], Some(b"host.example.com".to_vec()));
    check_shape(&body, "203.0.113.5", "54321", "host.example.com");
}

#[test]
fn body_is_json_for_absent_and_malformed_headers() {
    let p = PeerEndpoint { ip: IpAddress::V4(10, 0, 0, 1), port: 80 };
    let combos: Vec<Vec<Header>> = vec![
        vec![],
        vec![make_header(b"X-Real-IP", b"not-an-ip")],
        vec![make_header(b"X-Real-IP", b"198.51.100.7")],
        vec![make_header(b"X-Real-Port", b"443")],
        vec![make_header(b"X-Real-IP", b""), make_header(b"X-Real-Port", b"")],
        vec![make_header(b"X-Real-IP", b"bad"), make_header(b"X-Real-Port", b"weird port")],
    ];
    for hs in combos {
        let body = handle_request_with(&p, &hs, None);
        let text = String::from_utf8(body).unwrap();
        let value: serde_json::Value = serde_json::from_str(&text).unwrap();
        let object = value.as_object().unwrap();
        assert_eq!(object.len(), 3);
        assert!(object.get("ip").unwrap().is_string());
        assert!(object.get("port").unwrap().is_string());
        assert!(object.get("hostname").unwrap().is_string());
    }
}

#[test]
fn escaping_keeps_the_body_valid_json() {
    let p = PeerEndpoint { ip: IpAddress::V4(10, 0, 0, 1), port: 80 };
    let hs = vec![make_header(b"X-Real-Port", b"4\"43\\x\x01end")];
    let body = handle_request_with(&p, &hs, None);
    check_shape(&body, "10.0.0.1", "4\"43\\x\u{1}end", "");
}

#[test]
fn assembled_fields_round_trip_through_a_json_parser() {
    let body = assemble_response(
        &b"198.51.100.7".to_vec(),
        &b"44\x1f3".to_vec(),
        &b"a \"quoted\\\" name".to_vec(),
    );
    check_shape(&body, "198.51.100.7", "44\u{1f}3", "a \"quoted\\\" name");
}

#[test]
fn zero_address_reported_for_malformed_override_is_itself_an_address() {
    let p = PeerEndpoint { ip: IpAddress::V4(10, 0, 0, 1), port: 80 };
    let hs = vec![make_header(b"X-Real-IP", b"not-an-ip")];
    let body = handle_request_with(&p, &hs, None);
    let text = String::from_utf8(body).unwrap();
    let value: serde_json::Value = serde_json::from_str(&text).unwrap();
    let reported = value.as_object().unwrap().get("ip").unwrap().as_str().unwrap().to_string();
    assert_eq!(reported, "0.0.0.0");
    assert!(ipecho::ip::parse_ip(reported.as_bytes()).is_some());
}
