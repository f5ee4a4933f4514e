use ip_info::client_ip::{
    first_address, format_ip, header_value, handle_index_plain, real_ip, reported, reported_headers, IpAddress,
};

fn h(name: &str, value: &str) -> (String, String) {
    (name.to_string(), value.to_string())
}

fn v6(g: [u16; 8]) -> IpAddress {
    IpAddress::V6(g)
}

const DOC_ONE: [u16; 8] = [0x2001, 0xdb8, 0, 0, 0, 0, 0, 1];

#[test]
fn override_header_first_token_trimmed() {
    let headers = vec![h("host", "example"), h("X-Real-Ip", "203.0.113.7, 10.0.0.1")];
    assert_eq!(real_ip(&headers, &IpAddress::V4([192, 0, 2, 1])), "203.0.113.7");
    assert_eq!(real_ip(&headers, &v6(DOC_ONE)), "203.0.113.7");
}

#[test]
fn override_header_name_any_case() {
    let headers = vec![h("X-REAL-IP", "  198.51.100.9  ")];
    assert_eq!(real_ip(&headers, &IpAddress::V4([192, 0, 2, 1])), "198.51.100.9");
}

#[test]
fn override_header_first_of_several() {
    let headers = vec![h("x-real-ip", "1.1.1.1"), h("x-real-ip", "2.2.2.2")];
    assert_eq!(header_value(&headers, "X-Real-IP"), Some("1.1.1.1".to_string()));
}

#[test]
fn mapped_peer_in_dotted_decimal() {
    assert_eq!(real_ip(&vec![], &v6([0, 0, 0, 0, 0, 0xffff, 0xc633, 0x6417])), "198.51.100.23");
}

#[test]
fn ipv6_peer_unchanged() {
    assert_eq!(real_ip(&vec![h("accept", "*/*")], &v6(DOC_ONE)), "2001:db8::1");
}

#[test]
fn ipv4_peer() {
    assert_eq!(format_ip(&IpAddress::V4([10, 0, 255, 7])), "10.0.255.7");
    assert_eq!(format_ip(&IpAddress::V4([0, 0, 0, 0])), "0.0.0.0");
}

#[test]
fn ipv6_text_compresses_longest_zero_run() {
    let cases: [([u16; 8], &str); 10] = [
        ([0; 8], "::"),
        ([0, 0, 0, 0, 0, 0, 0, 1], "::1"),
        ([1, 0, 0, 0, 0, 0, 0, 0], "1::"),
        (DOC_ONE, "2001:db8::1"),
        ([1, 0, 0, 1, 0, 0, 0, 1], "1:0:0:1::1"),
        ([1, 0, 0, 2, 0, 0, 3, 4], "1::2:0:0:3:4"),
        ([1, 0, 2, 3, 4, 5, 6, 7], "1:0:2:3:4:5:6:7"),
        ([0xfe80, 0, 0, 0, 0xabcd, 0xef01, 0x2345, 0x6789], "fe80::abcd:ef01:2345:6789"),
        ([0xffff; 8], "ffff:ffff:ffff:ffff:ffff:ffff:ffff:ffff"),
        ([0, 0, 0, 0, 0, 0xfffe, 0x0102, 0x0304], "::fffe:102:304"),
    ];
    for (g, text) in cases {
        assert_eq!(format_ip(&IpAddress::V6(g)), text);
    }
}

#[test]
fn first_address_without_comma() {
    assert_eq!(first_address("\t203.0.113.7 "), "203.0.113.7");
    assert_eq!(first_address(""), "");
}

#[test]
fn header_filter() {
    assert!(!reported("x-real-ip"));
    assert!(!reported("X-Forwarded-For"));
    assert!(!reported("x-forwarded-proto"));
    assert!(reported("x-forwarded"));
    assert!(reported("accept"));
    let headers = vec![
        h("host", "a"),
        h("x-real-ip", "1.2.3.4"),
        h("x-forwarded-for", "5.6.7.8"),
        h("accept", "*/*"),
    ];
    assert_eq!(reported_headers(&headers), vec![h("host", "a"), h("accept", "*/*")]);
}

#[test]
fn handle_index_plain_ends_with_newline() {
    assert_eq!(handle_index_plain("203.0.113.7"), "203.0.113.7\n");
}
