use graft::doc::{Doc, DocObj};
use graft::oid::{parse_oid, ObjectId};
use graft::store::Store;
use graft::time::Timestamp;

fn s(v: &str) -> String {
    v.to_string()
}

fn oid(hex: &str) -> ObjectId {
    parse_oid(hex).unwrap()
}

const ID_A: &str = "aaaaaaaaaaaaaaaaaaaaaaaa";
const ID_B: &str = "bbbbbbbbbbbbbbbbbbbbbbbb";

fn version(id: &str, updated: &str, content: &str) -> DocObj {
    let mut d = DocObj::new();
    d.insert(s("id"), Doc::Str(s(id)));
    d.insert(s("updated"), Doc::Str(s(updated)));
    d.insert(s("content"), Doc::Str(s(content)));
    d
}

fn content_of(d: &DocObj) -> String {
    match d.get("content") {
        Some(Doc::Str(x)) => x.clone(),
        _ => String::new(),
    }
}

#[test]
fn get_at_before_earliest_is_not_found() {
    let mut store = Store::new();
    store.put(&version(ID_A, "2021-06-01T00:00:00.000Z", "v1")).unwrap();
    store.put(&version(ID_A, "2021-06-02T00:00:00.000Z", "v2")).unwrap();
    let before = Timestamp { year: 2021, month: 5, day: 31, hour: 23, minute: 59, second: 59, milli: 999 };
    assert!(store.get_record(&oid(ID_A), &before).is_none());
}

#[test]
fn get_at_at_or_after_latest_is_latest() {
    let mut store = Store::new();
    store.put(&version(ID_A, "2021-06-01T00:00:00.000Z", "v1")).unwrap();
    store.put(&version(ID_A, "2021-06-02T00:00:00.000Z", "v2")).unwrap();
    let exactly = Timestamp { year: 2021, month: 6, day: 2, hour: 0, minute: 0, second: 0, milli: 0 };
    let later = Timestamp { year: 2030, month: 1, day: 1, hour: 0, minute: 0, second: 0, milli: 0 };
    let latest = store.get(&oid(ID_A)).unwrap();
    let at_exact = store.get_record(&oid(ID_A), &exactly).unwrap();
    let at_later = store.get_record(&oid(ID_A), &later).unwrap();
    assert!(Doc::Obj(at_exact).deep_eq(&Doc::Obj(latest.deep_copy())));
    assert!(Doc::Obj(at_later).deep_eq(&Doc::Obj(latest)));
}

#[test]
fn get_at_between_versions_picks_earlier() {
    let mut store = Store::new();
    store.put(&version(ID_A, "2021-06-01T00:00:00.000Z", "v1")).unwrap();
    store.put(&version(ID_A, "2021-06-03T00:00:00.000Z", "v3")).unwrap();
    let mid = Timestamp { year: 2021, month: 6, day: 2, hour: 0, minute: 0, second: 0, milli: 0 };
    let got = store.get_record(&oid(ID_A), &mid).unwrap();
    assert_eq!(content_of(&got), "v1");
}

#[test]
fn get_unknown_id_is_not_found() {
    let mut store = Store::new();
    store.put(&version(ID_A, "2021-06-01T00:00:00.000Z", "v1")).unwrap();
    assert!(store.get(&oid(ID_B)).is_none());
}

#[test]
fn get_restores_key_fields_canonically() {
    let mut store = Store::new();
    store.put(&version(ID_A, "2021-06-01T00:00:00Z", "v1")).unwrap();
    let got = store.get(&oid(ID_A)).unwrap();
    match got.get("id") {
        Some(Doc::Str(x)) => assert_eq!(x, ID_A),
        _ => panic!("id missing"),
    }
    match got.get("updated") {
        Some(Doc::Str(x)) => assert_eq!(x, "2021-06-01T00:00:00.000Z"),
        _ => panic!("updated missing"),
    }
}

#[test]
fn put_requires_keyable_id_and_updated() {
    let mut store = Store::new();
    let mut no_id = DocObj::new();
    no_id.insert(s("updated"), Doc::Str(s("2021-06-01T00:00:00.000Z")));
    assert!(store.put(&no_id).is_err());

    let mut bad_id = DocObj::new();
    bad_id.insert(s("id"), Doc::Str(s("not-an-identity")));
    bad_id.insert(s("updated"), Doc::Str(s("2021-06-01T00:00:00.000Z")));
    assert!(store.put(&bad_id).is_err());

    let mut no_updated = DocObj::new();
    no_updated.insert(s("id"), Doc::Str(s(ID_A)));
    assert!(store.put(&no_updated).is_err());

    let mut bad_updated = DocObj::new();
    bad_updated.insert(s("id"), Doc::Str(s(ID_A)));
    bad_updated.insert(s("updated"), Doc::Str(s("yesterday")));
    assert!(store.put(&bad_updated).is_err());
    assert_eq!(store.len(), 0);
}

#[test]
fn coercion_canonicalizes_matching_strings() {
    // an uppercase identity string and a short instant inside the body come
    // back canonical: the storage coercion's documented sharp edge
    let mut store = Store::new();
    let mut doc = version(ID_A, "2021-06-01T00:00:00.000Z", "v1");
    doc.insert(s("ref"), Doc::Str(s("ABCDEFABCDEFABCDEFABCDEF")));
    doc.insert(s("seen"), Doc::Str(s("2021-06-01T12:00:00Z")));
    doc.insert(s("plain"), Doc::Str(s("just text")));
    store.put(&doc).unwrap();
    let got = store.get(&oid(ID_A)).unwrap();
    match got.get("ref") {
        Some(Doc::Str(x)) => assert_eq!(x, "abcdefabcdefabcdefabcdef"),
        _ => panic!("ref missing"),
    }
    match got.get("seen") {
        Some(Doc::Str(x)) => assert_eq!(x, "2021-06-01T12:00:00.000Z"),
        _ => panic!("seen missing"),
    }
    match got.get("plain") {
        Some(Doc::Str(x)) => assert_eq!(x, "just text"),
        _ => panic!("plain missing"),
    }
}

#[test]
fn filtered_listing_sorted_ascending() {
    const ID_C: &str = "cccccccccccccccccccccccc";
    const ID_D: &str = "dddddddddddddddddddddddd";
    let mut store = Store::new();
    let mut r1 = version(ID_C, "2021-06-03T00:00:00.000Z", "late");
    r1.insert(s("inReplyTo"), Doc::Str(s(ID_B)));
    let mut r2 = version(ID_A, "2021-06-01T00:00:00.000Z", "early");
    r2.insert(s("inReplyTo"), Doc::Str(s(ID_B)));
    let mut other = version(ID_D, "2021-06-02T00:00:00.000Z", "unrelated");
    other.insert(s("inReplyTo"), Doc::Str(s(ID_A)));
    store.put(&r1).unwrap();
    store.put(&r2).unwrap();
    store.put(&other).unwrap();
    let replies = store.get_replies(&oid(ID_B));
    assert_eq!(replies.len(), 2);
    assert_eq!(content_of(&replies[0]), "early");
    assert_eq!(content_of(&replies[1]), "late");
    let children = store.get_children(&oid(ID_B));
    assert_eq!(children.len(), 0);
}

#[test]
fn filtered_listing_takes_current_versions_only() {
    // a superseded version does not answer a listing, even when it carried
    // the relation; a current version that dropped it does not either
    let mut store = Store::new();
    let mut v1 = version(ID_A, "2021-06-01T00:00:00.000Z", "old reply");
    v1.insert(s("inReplyTo"), Doc::Str(s(ID_B)));
    let v2 = version(ID_A, "2021-06-02T00:00:00.000Z", "edited away");
    store.put(&v1).unwrap();
    store.put(&v2).unwrap();
    assert_eq!(store.get_replies(&oid(ID_B)).len(), 0);

    // and the other way: only the current version still replying counts once
    let mut v3 = version(ID_A, "2021-06-03T00:00:00.000Z", "replying again");
    v3.insert(s("inReplyTo"), Doc::Str(s(ID_B)));
    store.put(&v3).unwrap();
    let replies = store.get_replies(&oid(ID_B));
    assert_eq!(replies.len(), 1);
    assert_eq!(content_of(&replies[0]), "replying again");
}

#[test]
fn rewriting_a_read_version_is_stable() {
    // the coercion is idempotent: what a read renders, a rewrite stores
    // unchanged
    let mut store = Store::new();
    let mut doc = version(ID_A, "2021-06-01T00:00:00Z", "v1");
    doc.insert(s("ref"), Doc::Str(s("ABCDEFABCDEFABCDEFABCDEF")));
    store.put(&doc).unwrap();
    let first = store.get(&oid(ID_A)).unwrap();

    let mut again = first.deep_copy();
    again.insert(s("updated"), Doc::Str(s("2021-06-02T00:00:00.000Z")));
    store.put(&again).unwrap();
    let second = store.get(&oid(ID_A)).unwrap();
    assert_eq!(content_of(&second), "v1");
    match (first.get("ref"), second.get("ref")) {
        (Some(a), Some(b)) => assert!(a.deep_eq(b)),
        _ => panic!("ref missing"),
    }
}
