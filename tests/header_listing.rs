use ip_info::header_listing::sorted_reported_headers;

fn h(name: &str, value: &str) -> (String, String) {
    (name.to_string(), value.to_string())
}

#[test]
fn listing_sorted_by_name() {
    let headers = vec![h("user-agent", "curl"), h("accept", "*/*"), h("host", "example")];
    assert_eq!(
        sorted_reported_headers(&headers),
        vec![h("accept", "*/*"), h("host", "example"), h("user-agent", "curl")]
    );
}

#[test]
fn listing_last_value_wins() {
    let headers = vec![h("cookie", "a=1"), h("accept", "*/*"), h("cookie", "b=2")];
    assert_eq!(sorted_reported_headers(&headers), vec![h("accept", "*/*"), h("cookie", "b=2")]);
}

#[test]
fn listing_leaves_out_proxy_headers() {
    let headers = vec![h("x-real-ip", "1.2.3.4"), h("x-forwarded-for", "5.6.7.8"), h("b", "2"), h("a", "1")];
    assert_eq!(sorted_reported_headers(&headers), vec![h("a", "1"), h("b", "2")]);
}

#[test]
fn listing_orders_by_code_point() {
    let headers = vec![h("ab", "1"), h("a", "2"), h("B", "3"), h("", "4")];
    assert_eq!(
        sorted_reported_headers(&headers),
        vec![h("", "4"), h("B", "3"), h("a", "2"), h("ab", "1")]
    );
}

#[test]
fn listing_empty() {
    assert!(sorted_reported_headers(&vec![]).is_empty());
}
