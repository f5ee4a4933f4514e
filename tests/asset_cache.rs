use ip_info::asset_cache::{compute_etag, weak_etag, ConditionalCache};

const CSS: &str = "body { color: black; }\n";
const TAG: &str = "W/\"GPJCZedtxz3+vkla/Gp5Rw\"";

fn header<'a>(headers: &'a [(String, String)], name: &str) -> Option<&'a str> {
    headers.iter().find(|(k, _)| k == name).map(|(_, v)| v.as_str())
}

#[test]
fn etag_of_known_content() {
    assert_eq!(compute_etag(CSS), TAG);
    assert_eq!(compute_etag(""), "W/\"f5wrpOiPgn1hYEVQdgWFPg\"");
}

#[test]
fn weak_etag_wraps() {
    assert_eq!(weak_etag("abc"), "W/\"abc\"");
}

#[test]
fn matching_tag_not_modified() {
    let cache = ConditionalCache::new(CSS);
    let r = cache.respond(Some(TAG));
    assert_eq!(r.status, 304);
    assert_eq!(r.body, None);
    assert_eq!(header(&r.headers, "ETag"), Some(TAG));
    assert_eq!(header(&r.headers, "Content-Type"), Some("text/css; charset=utf-8"));
    assert_eq!(header(&r.headers, "Cache-Control"), Some("max-age=86400"));
}

#[test]
fn other_tag_full_body() {
    let cache = ConditionalCache::new(CSS);
    for inm in [Some("W/\"other\""), Some("GPJCZedtxz3+vkla/Gp5Rw"), None] {
        let r = cache.respond(inm);
        assert_eq!(r.status, 200);
        assert_eq!(r.body.as_deref(), Some(CSS));
        assert_eq!(header(&r.headers, "ETag"), Some(TAG));
        assert_eq!(header(&r.headers, "Content-Type"), Some("text/css; charset=utf-8"));
        assert_eq!(header(&r.headers, "Cache-Control"), Some("max-age=86400"));
    }
}

#[test]
fn header_lookup_any_case() {
    let cache = ConditionalCache::new(CSS);
    let headers = vec![("If-None-Match".to_string(), TAG.to_string())];
    assert_eq!(cache.handle(&headers).status, 304);
    assert_eq!(cache.handle(&vec![]).status, 200);
}

#[test]
fn token_is_stable() {
    let cache = ConditionalCache::new(CSS);
    let first = cache.etag().to_string();
    for _ in 0..3 {
        let r = cache.respond(None);
        assert_eq!(header(&r.headers, "ETag"), Some(first.as_str()));
    }
    assert_eq!(ConditionalCache::new(CSS).etag(), first);
    assert_eq!(cache.asset(), CSS);
}
