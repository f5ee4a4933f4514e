use ip_info::accept::{parse_accept, parse_accept_directive, parse_qvalue_chars, Directive};
use ip_info::media_type::NegotiationError;

fn chars(s: &str) -> Vec<char> {
    s.chars().collect()
}

fn names(ds: &[Directive]) -> Vec<String> {
    ds.iter()
        .map(|d| format!("{}/{}", d.media_type.main_type(), d.media_type.sub_type()))
        .collect()
}

#[test]
fn qvalues_in_thousandths() {
    assert_eq!(parse_qvalue_chars(&chars("0.5")), Some(500));
    assert_eq!(parse_qvalue_chars(&chars("0.123")), Some(123));
    assert_eq!(parse_qvalue_chars(&chars("0.05")), Some(50));
    assert_eq!(parse_qvalue_chars(&chars("0")), Some(0));
    assert_eq!(parse_qvalue_chars(&chars("0.")), Some(0));
    assert_eq!(parse_qvalue_chars(&chars("1")), Some(1000));
    assert_eq!(parse_qvalue_chars(&chars("1.000")), Some(1000));
}

#[test]
fn qvalues_rejected() {
    assert_eq!(parse_qvalue_chars(&chars("")), None);
    assert_eq!(parse_qvalue_chars(&chars("1.5")), None);
    assert_eq!(parse_qvalue_chars(&chars("2")), None);
    assert_eq!(parse_qvalue_chars(&chars("0.1234")), None);
    assert_eq!(parse_qvalue_chars(&chars("abc")), None);
    assert_eq!(parse_qvalue_chars(&chars("0,5")), None);
}

#[test]
fn directive_with_weight() {
    let d = parse_accept_directive("text/html;q=0.8").unwrap();
    assert_eq!(d.media_type.main_type(), "text");
    assert_eq!(d.media_type.sub_type(), "html");
    assert_eq!(d.q, 800);
}

#[test]
fn directive_default_weight_and_whitespace() {
    let d = parse_accept_directive("  application/json ").unwrap();
    assert_eq!(d.media_type.main_type(), "application");
    assert_eq!(d.media_type.sub_type(), "json");
    assert_eq!(d.q, 1000);
}

#[test]
fn directive_with_parameter_and_weight() {
    let d = parse_accept_directive("text/plain;format=flowed;q=0.3").unwrap();
    assert_eq!(d.media_type.sub_type(), "plain");
    assert_eq!(d.media_type.parameter(), Some(("format".to_string(), "flowed".to_string())));
    assert_eq!(d.q, 300);
}

#[test]
fn directive_errors() {
    assert_eq!(parse_accept_directive("text/html;q=abc").unwrap_err(), NegotiationError::InvalidQValue);
    assert_eq!(parse_accept_directive("text/html;q=1.5").unwrap_err(), NegotiationError::InvalidQValue);
    assert_eq!(parse_accept_directive("texthtml;q=0.5").unwrap_err(), NegotiationError::MalformedMediaType);
}

#[test]
fn header_sorted_by_weight() {
    let ds = parse_accept("text/*;q=0.5, application/json;q=0.9");
    assert_eq!(names(&ds), vec!["application/json", "text/*"]);
    assert_eq!(ds[0].q, 900);
    assert_eq!(ds[1].q, 500);
}

#[test]
fn header_equal_weights_keep_order() {
    let ds = parse_accept("a/b;q=0.5, c/d, e/f;q=0.5, g/h, i/j;q=0.7");
    assert_eq!(names(&ds), vec!["c/d", "g/h", "i/j", "a/b", "e/f"]);
}

#[test]
fn header_skips_malformed() {
    let ds = parse_accept("garbage, text/html, image/png;q=nope");
    assert_eq!(names(&ds), vec!["text/html"]);
}

#[test]
fn header_empty() {
    assert!(parse_accept("").is_empty());
}
