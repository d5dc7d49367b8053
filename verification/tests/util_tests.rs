use graft::dispatch::{create_account_prepare, url_decoration};
use graft::doc::{Doc, DocObj};
use graft::error::{BadReason, Error};
use graft::oid::{generate_id, generate_ids, oid_hex, parse_oid};
use graft::time::Timestamp;
use graft::util::{get_oid, is_string_numeric, is_username, GeneratedHtml, Reference, Url};

fn s(v: &str) -> String {
    v.to_string()
}

#[test]
fn oid_extraction_prefers_rightmost_dash() {
    assert_eq!(get_oid("/post/alice-abc123"), Some("abc123"));
    assert_eq!(get_oid("/post/abc123"), Some("abc123"));
    assert_eq!(get_oid("a-b-c"), Some("c"));
    assert_eq!(get_oid("nothing"), None);
    assert_eq!(get_oid("/of/display-name-xyz"), Some("xyz"));
}

#[test]
fn username_prefix() {
    assert!(is_username("@alice"));
    assert!(!is_username("alice"));
    assert!(!is_username(""));
}

#[test]
fn numeric_strings() {
    assert!(is_string_numeric("123456"));
    assert!(is_string_numeric(""));
    assert!(!is_string_numeric("12a"));
    assert!(!is_string_numeric("-1"));
}

#[test]
fn identity_hex_round_trip() {
    let id = parse_oid("0123456789abcdef01234567").unwrap();
    assert_eq!(oid_hex(&id), "0123456789abcdef01234567");
    // uppercase input parses to the same identity, rendered lowercase
    let upper = parse_oid("0123456789ABCDEF01234567").unwrap();
    assert_eq!(oid_hex(&upper), "0123456789abcdef01234567");
    assert!(parse_oid("0123").is_none());
    assert!(parse_oid("0123456789abcdef0123456z").is_none());
}

#[test]
fn generated_identities_render_as_hex() {
    let id = generate_id();
    let hex = oid_hex(&id);
    assert_eq!(hex.len(), 24);
    assert!(parse_oid(&hex).is_some());
    let batch = generate_ids(3);
    assert_eq!(batch.len(), 3);
}

#[test]
fn url_renders_back() {
    let u = Url { scheme: s("https"), host: s("localhost"), path: s("/post/abc") };
    assert_eq!(u.render(), "https://localhost/post/abc");
    let html = GeneratedHtml { head: s("<title>t</title>"), html: s("<p>b</p>") };
    assert_eq!(html.head.len(), 16);
    assert!(html.html.starts_with("<p>"));
    let r = Reference { id: s("abc"), url_decoration: s("alice-") };
    assert_eq!(r.id, "abc");
    assert_eq!(r.url_decoration, "alice-");
}

#[test]
fn account_url_decoration() {
    let mut named = DocObj::new();
    named.insert(s("name"), Doc::Str(s("alice")));
    assert_eq!(url_decoration(&named).unwrap(), "alice-");

    let anonymous = DocObj::new();
    assert_eq!(url_decoration(&anonymous).unwrap(), "");

    let mut odd = DocObj::new();
    odd.insert(s("name"), Doc::Int(7));
    assert_eq!(
        url_decoration(&odd),
        Err(Error::BadRequest(BadReason::NameNotString))
    );
}

#[test]
fn account_prepared_for_first_version() {
    let mut account = DocObj::new();
    account.insert(s("name"), Doc::Str(s("alice")));
    let id = parse_oid("aaaaaaaaaaaaaaaaaaaaaaaa").unwrap();
    let when = Timestamp { year: 2021, month: 12, day: 22, hour: 18, minute: 29, second: 0, milli: 0 };
    create_account_prepare(&mut account, &id, &when);
    match account.get("id") {
        Some(Doc::Str(x)) => assert_eq!(x, "aaaaaaaaaaaaaaaaaaaaaaaa"),
        _ => panic!("id missing"),
    }
    let published = account
        .get("https://www.w3.org/ns/activitystreams#published")
        .expect("published missing");
    match published {
        Doc::Obj(o) => match o.get("@value") {
            Some(Doc::Str(x)) => assert_eq!(x, "2021-12-22T18:29:00.000Z"),
            _ => panic!("@value missing"),
        },
        _ => panic!("expected a datetime object"),
    }
    assert!(account.get("https://www.w3.org/ns/activitystreams#updated").is_some());
}
