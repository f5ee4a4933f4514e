use ip_info::page::{handle_index_html, handle_index_json};

#[test]
fn page_escapes_headers() {
    let headers = vec![("user-agent".to_string(), "<b>&'x\"/".to_string())];
    let page = handle_index_html("203.0.113.7", &headers);
    assert!(page.contains("<code>203.0.113.7</code>"));
    assert!(page.contains("<code>[user-agent]</code>"));
    assert!(page.contains("<code>&lt;b&gt;&amp;&#x27;x&quot;&#x2F;</code>"));
    assert!(page.starts_with("<html>"));
    assert!(page.ends_with("</html>\n"));
}

#[test]
fn page_without_headers() {
    let page = handle_index_html("::1", &vec![]);
    assert!(!page.contains("header-container"));
    assert!(page.contains("<code>::1</code>"));
}

#[test]
fn page_leaves_out_proxy_headers() {
    let headers = vec![
        ("x-real-ip".to_string(), "1.2.3.4".to_string()),
        ("x-forwarded-for".to_string(), "5.6.7.8".to_string()),
        ("host".to_string(), "example".to_string()),
    ];
    let page = handle_index_html("1.2.3.4", &headers);
    assert!(!page.contains("x-real-ip"));
    assert!(!page.contains("x-forwarded-for"));
    assert!(page.contains("<code>[host]</code>"));
}

#[test]
fn json_content_filters_headers() {
    let headers = vec![
        ("accept".to_string(), "*/*".to_string()),
        ("X-Forwarded-Proto".to_string(), "https".to_string()),
    ];
    let r = handle_index_json("10.0.0.1".to_string(), &headers);
    assert_eq!(r.ip, "10.0.0.1");
    assert_eq!(r.headers, vec![("accept".to_string(), "*/*".to_string())]);
}

#[test]
fn page_rows_sorted_by_name() {
    let headers = vec![
        ("user-agent".to_string(), "curl".to_string()),
        ("accept".to_string(), "*/*".to_string()),
    ];
    let page = handle_index_html("10.0.0.1", &headers);
    let a = page.find("[accept]").unwrap();
    let u = page.find("[user-agent]").unwrap();
    assert!(a < u);
}
