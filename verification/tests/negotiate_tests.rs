use graft::negotiate::{is_activitypub_post, is_activitypub_request, Method, RequestHead};

fn get_with_accept(accept: &str) -> RequestHead {
    RequestHead { method: Method::Get, accept: Some(accept.to_string()), content_type: None }
}

fn post_with_type(content_type: &str) -> RequestHead {
    RequestHead {
        method: Method::Post,
        accept: None,
        content_type: Some(content_type.to_string()),
    }
}

#[test]
fn accept_activity_json_is_activitypub() {
    assert!(is_activitypub_request(&get_with_accept("application/activity+json")));
}

#[test]
fn accept_ld_json_with_profile_is_activitypub() {
    assert!(is_activitypub_request(&get_with_accept(
        "application/ld+json; profile=\"https://www.w3.org/ns/activitystreams\""
    )));
    // among several space-separated profile tokens
    assert!(is_activitypub_request(&get_with_accept(
        "application/ld+json; profile=\"https://example.org/x https://www.w3.org/ns/activitystreams\""
    )));
}

#[test]
fn accept_html_is_not_activitypub() {
    assert!(!is_activitypub_request(&get_with_accept("text/html")));
    assert!(!is_activitypub_request(&get_with_accept("application/ld+json")));
    assert!(!is_activitypub_request(&get_with_accept(
        "application/ld+json; profile=\"https://example.org/other\""
    )));
}

#[test]
fn comma_separated_list_matches_any() {
    assert!(is_activitypub_request(&get_with_accept(
        "text/html, application/activity+json"
    )));
    assert!(!is_activitypub_request(&get_with_accept("text/html, application/json")));
}

#[test]
fn post_content_type_decides() {
    assert!(is_activitypub_request(&post_with_type("application/activity+json")));
    assert!(!is_activitypub_request(&post_with_type("application/json")));
    // POST ignores Accept
    let head = RequestHead {
        method: Method::Post,
        accept: Some("application/activity+json".to_string()),
        content_type: None,
    };
    assert!(!is_activitypub_request(&head));
}

#[test]
fn other_methods_and_missing_headers_do_not_match() {
    let head = RequestHead {
        method: Method::Other,
        accept: Some("application/activity+json".to_string()),
        content_type: None,
    };
    assert!(!is_activitypub_request(&head));
    let bare = RequestHead { method: Method::Get, accept: None, content_type: None };
    assert!(!is_activitypub_request(&bare));
}

#[test]
fn exact_post_header_check() {
    assert!(is_activitypub_post(&post_with_type("application/activity+json")));
    assert!(is_activitypub_post(&post_with_type(
        "application/ld+json; profile=\"https://www.w3.org/ns/activitystreams\""
    )));
    // this variant compares the whole header, so extra spacing does not match
    assert!(!is_activitypub_post(&post_with_type(
        "application/ld+json;  profile=\"https://www.w3.org/ns/activitystreams\""
    )));
}
