use ip_info::media_type::{MediaType, NegotiationError};
use ip_info::negotiation::{choose_representation, select_handler, Representation};

fn registrations() -> Vec<MediaType> {
    vec![
        MediaType::parse("text/plain").unwrap(),
        MediaType::parse("application/json").unwrap(),
        MediaType::parse("text/html").unwrap(),
    ]
}

#[test]
fn selects_json() {
    assert_eq!(select_handler(Some("application/json"), &registrations()), Ok(1));
    assert_eq!(choose_representation(Some("application/json")), Ok(Representation::Json));
}

#[test]
fn higher_weight_wins_though_listed_second() {
    let accept = "text/*;q=0.5, application/json;q=0.9";
    assert_eq!(select_handler(Some(accept), &registrations()), Ok(1));
    assert_eq!(choose_representation(Some(accept)), Ok(Representation::Json));
}

#[test]
fn equal_weights_pick_plain() {
    let accept = "text/plain;q=0.5, text/html;q=0.5";
    assert_eq!(select_handler(Some(accept), &registrations()), Ok(0));
    assert_eq!(choose_representation(Some(accept)), Ok(Representation::Plain));
}

#[test]
fn wildcard_directive_takes_first_registration() {
    assert_eq!(select_handler(Some("text/*"), &registrations()), Ok(0));
    assert_eq!(select_handler(Some("*/*"), &registrations()), Ok(0));
}

#[test]
fn no_accept_header_takes_first_registration() {
    assert_eq!(select_handler(None, &registrations()), Ok(0));
    assert_eq!(choose_representation(None), Ok(Representation::Plain));
}

#[test]
fn nothing_acceptable() {
    assert_eq!(
        select_handler(Some("application/xml"), &registrations()),
        Err(NegotiationError::NoAcceptableHandler)
    );
    assert_eq!(choose_representation(Some("application/xml")), Err(NegotiationError::NoAcceptableHandler));
}

#[test]
fn no_registrations() {
    assert_eq!(select_handler(None, &Vec::new()), Err(NegotiationError::NoAcceptableHandler));
}

#[test]
fn malformed_directives_are_skipped() {
    assert_eq!(select_handler(Some("bogus, text/html"), &registrations()), Ok(2));
    assert_eq!(choose_representation(Some("text/html;q=x, text/html")), Ok(Representation::Html));
}
