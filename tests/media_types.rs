use ip_info::media_type::{MediaType, NegotiationError};

#[test]
fn parse_with_parameter() {
    let m = MediaType::parse("text/plain;charset=utf-8").unwrap();
    assert_eq!(m.main_type(), "text");
    assert_eq!(m.sub_type(), "plain");
    assert_eq!(m.parameter(), Some(("charset".to_string(), "utf-8".to_string())));
}

#[test]
fn parse_without_parameter() {
    let m = MediaType::parse("application/json").unwrap();
    assert_eq!(m.main_type(), "application");
    assert_eq!(m.sub_type(), "json");
    assert_eq!(m.parameter(), None);
}

#[test]
fn parse_parameter_without_equals_is_dropped() {
    let m = MediaType::parse("text/html;level").unwrap();
    assert_eq!(m.sub_type(), "html");
    assert_eq!(m.parameter(), None);
}

#[test]
fn parse_without_slash_fails() {
    assert_eq!(MediaType::parse("textplain").unwrap_err(), NegotiationError::MalformedMediaType);
    assert_eq!(MediaType::parse("").unwrap_err(), NegotiationError::MalformedMediaType);
}

#[test]
fn parse_empty_slots_fail() {
    assert_eq!(MediaType::parse("text/").unwrap_err(), NegotiationError::MalformedMediaType);
    assert_eq!(MediaType::parse("/plain").unwrap_err(), NegotiationError::MalformedMediaType);
    assert_eq!(MediaType::parse("text/;a=b").unwrap_err(), NegotiationError::MalformedMediaType);
}

#[test]
fn wildcards_match_both_ways() {
    let any = MediaType::parse("*/*").unwrap();
    let text_any = MediaType::parse("text/*").unwrap();
    let html = MediaType::parse("text/html").unwrap();
    let json = MediaType::parse("application/json").unwrap();
    assert!(any.matches(&html) && html.matches(&any));
    assert!(text_any.matches(&html) && html.matches(&text_any));
    assert!(!text_any.matches(&json) && !json.matches(&text_any));
    assert!(!html.matches(&json) && !json.matches(&html));
}

#[test]
fn matching_ignores_parameter() {
    let a = MediaType::parse("text/html;charset=utf-8").unwrap();
    let b = MediaType::parse("text/html").unwrap();
    assert!(a.matches(&b));
}

#[test]
fn part_matches_rules() {
    assert!(MediaType::part_matches("text", "text"));
    assert!(MediaType::part_matches("*", "text"));
    assert!(MediaType::part_matches("text", "*"));
    assert!(!MediaType::part_matches("text", "image"));
    assert!(!MediaType::part_matches("**", "text"));
}
