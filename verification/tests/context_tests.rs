use graft::context::{
    clear_graft_base, context, ensure_present, insert_context, insert_graft_context,
    make_base_context, make_graft_context, set_graft_base, strip_finish, unstrip_context,
};
use graft::doc::{Doc, DocObj};
use graft::negotiate::{Method, RequestHead};

const AS: &str = "https://www.w3.org/ns/activitystreams";

fn s(v: &str) -> String {
    v.to_string()
}

fn ld_get_head() -> RequestHead {
    RequestHead {
        method: Method::Get,
        accept: Some(s(
            "application/ld+json; profile=\"https://www.w3.org/ns/activitystreams\"",
        )),
        content_type: None,
    }
}

fn is_str(d: &Doc, expected: &str) -> bool {
    match d {
        Doc::Str(x) => x == expected,
        _ => false,
    }
}

#[test]
fn test_context() {
    let req = ld_get_head();

    let empty = DocObj::new();
    let ctx = context(&empty, &req).unwrap();
    assert_eq!(ctx.len(), 1);
    assert!(is_str(&ctx[0], AS));

    let mut single = DocObj::new();
    single.insert(s("@context"), Doc::Str(s(AS)));
    let ctx = context(&single, &req).unwrap();
    assert_eq!(ctx.len(), 1);
    assert!(is_str(&ctx[0], AS));

    let mut arr = DocObj::new();
    arr.insert(s("@context"), Doc::Arr(vec![Doc::Str(s(AS))]));
    let ctx = context(&arr, &req).unwrap();
    assert_eq!(ctx.len(), 1);
    assert!(is_str(&ctx[0], AS));

    let mut custom = DocObj::new();
    custom.insert(s("@context"), Doc::Str(s("https://example.org/ns/")));
    let ctx = context(&custom, &req).unwrap();
    assert_eq!(ctx.len(), 2);
    assert!(is_str(&ctx[0], AS));
    assert!(is_str(&ctx[1], "https://example.org/ns/"));
}

#[test]
fn context_other_method_rejected() {
    let head = RequestHead { method: Method::Other, accept: None, content_type: None };
    let empty = DocObj::new();
    assert!(context(&empty, &head).is_err());
}

#[test]
fn ensure_present_idempotent_on_concrete_list() {
    let singleton = Doc::Str(s("https://example.org/extra"));
    let mut list = vec![Doc::Str(s(AS)), Doc::Str(s("https://example.org/other"))];
    ensure_present(&mut list, &singleton);
    let once: Vec<String> = list
        .iter()
        .map(|d| match d {
            Doc::Str(x) => x.clone(),
            _ => String::new(),
        })
        .collect();
    // inserted right after the base context
    assert_eq!(once, vec![AS.to_string(), "https://example.org/extra".to_string(),
        "https://example.org/other".to_string()]);
    ensure_present(&mut list, &singleton);
    let twice: Vec<String> = list
        .iter()
        .map(|d| match d {
            Doc::Str(x) => x.clone(),
            _ => String::new(),
        })
        .collect();
    assert_eq!(once, twice);
}

#[test]
fn ensure_present_without_base_inserts_front() {
    let singleton = Doc::Str(s("https://example.org/extra"));
    let mut list = vec![Doc::Str(s("https://example.org/other"))];
    ensure_present(&mut list, &singleton);
    assert_eq!(list.len(), 2);
    assert!(is_str(&list[0], "https://example.org/extra"));
}

#[test]
fn insert_context_lands_before_graft() {
    let mut list: Vec<Doc> = vec![make_graft_context()];
    insert_context(&mut list);
    assert_eq!(list.len(), 2);
    assert!(is_str(&list[0], AS));
    // idempotent as well
    insert_context(&mut list);
    assert_eq!(list.len(), 2);
}

#[test]
fn insert_graft_context_lands_after_base() {
    let mut list: Vec<Doc> = vec![make_base_context()];
    insert_graft_context(&mut list);
    assert_eq!(list.len(), 2);
    assert!(is_str(&list[0], AS));
    assert!(list[1].deep_eq(&make_graft_context()));
}

#[test]
fn strip_after_unstrip_restores_document() {
    // A compact document without a custom context: attaching the canonical
    // pair and stripping a conformant compaction result restores it.
    let mut doc = DocObj::new();
    doc.insert(s("id"), Doc::Str(s("aaaaaaaaaaaaaaaaaaaaaaaa")));
    doc.insert(s("type"), Doc::Str(s("Note")));
    doc.insert(s("content"), Doc::Str(s("hello")));
    let before = doc.deep_copy();

    unstrip_context(&mut doc);
    assert!(doc.get("@context").is_some());
    strip_finish(&mut doc);
    assert!(doc.get("@context").is_none());
    assert!(Doc::Obj(doc).deep_eq(&Doc::Obj(before)));
}

#[test]
fn unstrip_keeps_custom_context_entry() {
    let mut doc = DocObj::new();
    doc.insert(s("@context"), Doc::Str(s("https://example.org/ns/")));
    unstrip_context(&mut doc);
    match doc.get("@context") {
        Some(Doc::Arr(a)) => {
            assert_eq!(a.len(), 3);
            assert!(is_str(&a[0], AS));
            assert!(a[1].deep_eq(&make_graft_context()));
            assert!(is_str(&a[2], "https://example.org/ns/"));
        }
        _ => panic!("expected a context array"),
    }
}

#[test]
fn strip_collapses_empty_inbox_and_outbox() {
    let mut doc = DocObj::new();
    doc.insert(s("inbox"), Doc::Str(s("")));
    doc.insert(s("outbox"), Doc::Str(s("../by/abc")));
    strip_finish(&mut doc);
    assert!(doc.get("inbox").is_none());
    assert!(doc.get("outbox").is_some());
}

#[test]
fn strip_keeps_foreign_single_context() {
    let mut doc = DocObj::new();
    doc.insert(s("@context"), Doc::Str(s("https://example.org/ns/")));
    strip_finish(&mut doc);
    match doc.get("@context") {
        Some(Doc::Str(x)) => assert_eq!(x, "https://example.org/ns/"),
        _ => panic!("expected the foreign context to stay"),
    }
}

#[test]
fn strip_drops_bare_base_context() {
    let mut doc = DocObj::new();
    doc.insert(s("@context"), Doc::Str(s(AS)));
    strip_finish(&mut doc);
    assert!(doc.get("@context").is_none());
}

#[test]
fn graft_base_set_and_cleared() {
    let mut list: Vec<Doc> = vec![make_base_context(), make_graft_context()];
    let at = set_graft_base(&mut list, "https://example.org/post/x");
    assert_eq!(at, Some(1));
    match &list[1] {
        Doc::Obj(o) => match o.get("@base") {
            Some(Doc::Str(b)) => assert_eq!(b, "https://example.org/post/x"),
            _ => panic!("expected the base to be set"),
        },
        _ => panic!("expected the graft object"),
    }

    // a compaction result carrying that context gets its @base stripped back
    let mut result = DocObj::new();
    result.insert(s("@context"), Doc::Arr(list));
    result.insert(s("id"), Doc::Str(s("x")));
    clear_graft_base(&mut result, 1).unwrap();
    match result.get("@context") {
        Some(Doc::Arr(a)) => {
            assert!(a[1].deep_eq(&make_graft_context()));
        }
        _ => panic!("expected the context array"),
    }
}

#[test]
fn graft_base_none_without_graft() {
    let mut list: Vec<Doc> = vec![make_base_context()];
    assert_eq!(set_graft_base(&mut list, "https://example.org/"), None);
    assert!(is_str(&list[0], AS));
}

#[test]
fn graft_base_clearing_needs_the_compacted_shape() {
    let mut bare = DocObj::new();
    bare.insert(s("id"), Doc::Str(s("x")));
    assert!(clear_graft_base(&mut bare, 0).is_err());

    let mut short = DocObj::new();
    short.insert(s("@context"), Doc::Arr(vec![make_base_context()]));
    assert!(clear_graft_base(&mut short, 1).is_err());
    // index in range but the entry is no object
    assert!(clear_graft_base(&mut short, 0).is_err());
}
