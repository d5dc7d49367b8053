use graft::dispatch::{
    add_items, expansion_single_root, make_tombstone, merge_patch, parse_verb, remove_items,
    submit_commit, submit_plan, PlanItem, Verb,
};
use graft::doc::{Doc, DocObj};
use graft::error::{BadReason, Error};
use graft::oid::{parse_oid, ObjectId};
use graft::store::Store;
use graft::time::Timestamp;

const NS: &str = "https://www.w3.org/ns/activitystreams#";
const HOST: &str = "localhost";
const ID_A: &str = "aaaaaaaaaaaaaaaaaaaaaaaa";
const ID_B: &str = "bbbbbbbbbbbbbbbbbbbbbbbb";
const ID_C: &str = "cccccccccccccccccccccccc";
const ID_D: &str = "dddddddddddddddddddddddd";

fn s(v: &str) -> String {
    v.to_string()
}

fn key(name: &str) -> String {
    let mut k = NS.to_string();
    k.push_str(name);
    k
}

fn oid(hex: &str) -> ObjectId {
    parse_oid(hex).unwrap()
}

fn ts() -> Timestamp {
    Timestamp { year: 2021, month: 12, day: 22, hour: 18, minute: 29, second: 0, milli: 0 }
}

fn typed_activity(verb: &str) -> DocObj {
    let mut a = DocObj::new();
    a.insert(s("@type"), Doc::Arr(vec![Doc::Str(key(verb))]));
    a
}

fn reference(id: &str) -> Doc {
    let mut o = DocObj::new();
    let mut iri = String::from("https://localhost/post/");
    iri.push_str(id);
    o.insert(s("@id"), Doc::Str(iri));
    Doc::Obj(o)
}

fn str_field<'a>(d: &'a DocObj, k: &str) -> &'a str {
    match d.get(k) {
        Some(Doc::Str(x)) => x.as_str(),
        _ => panic!("missing string field"),
    }
}

#[test]
fn verb_parsing() {
    assert_eq!(parse_verb(&typed_activity("Create")).unwrap(), Verb::Create);
    assert_eq!(parse_verb(&typed_activity("Remove")).unwrap(), Verb::Remove);
    let missing = DocObj::new();
    assert_eq!(
        parse_verb(&missing),
        Err(Error::BadRequest(BadReason::MissingType))
    );
    let mut unknown = DocObj::new();
    unknown.insert(s("@type"), Doc::Arr(vec![Doc::Str(key("Question"))]));
    assert_eq!(
        parse_verb(&unknown),
        Err(Error::BadRequest(BadReason::UnknownType))
    );
    // the first recognized type decides
    let mut mixed = DocObj::new();
    mixed.insert(
        s("@type"),
        Doc::Arr(vec![Doc::Str(key("Question")), Doc::Str(key("Delete"))]),
    );
    assert_eq!(parse_verb(&mixed).unwrap(), Verb::Delete);
}

#[test]
fn unimplemented_verbs_fail_distinguishably() {
    let store = Store::new();
    for verb in ["Like", "Block", "Undo"] {
        let a = typed_activity(verb);
        let r = submit_plan(&a, &oid(ID_A), &ts(), &Vec::new(), HOST, &store);
        assert_eq!(r.err().unwrap(), Error::Unimplemented);
    }
}

#[test]
fn create_overrides_client_id_and_attribution() {
    // the embedded object claims an id and an attribution; both give way
    let mut object = DocObj::new();
    object.insert(s("@id"), Doc::Str(s("https://localhost/post/evil-claimed")));
    object.insert(key("attributedTo").to_string(), Doc::Str(s("someone else")));
    object.insert(s("content"), Doc::Str(s("hi")));

    let mut activity = typed_activity("Create");
    activity.insert(key("object"), Doc::Arr(vec![Doc::Obj(object)]));

    let store = Store::new();
    let actor = oid(ID_A);
    let fresh = vec![oid(ID_B)];
    let plan = submit_plan(&activity, &actor, &ts(), &fresh, HOST, &store).unwrap();
    assert_eq!(plan.verb, Verb::Create);
    assert_eq!(plan.items.len(), 1);
    let created = match &plan.items[0] {
        PlanItem::CreateObj(d) => d,
        _ => panic!("expected a created object"),
    };
    assert_eq!(str_field(created, "@id"), ID_B);
    match created.get(&key("attributedTo")) {
        Some(Doc::Obj(a)) => assert_eq!(str_field(a, "@id"), ID_A),
        _ => panic!("expected the actor reference"),
    }
    assert_eq!(str_field(created, "content"), "hi");
    assert!(created.get(&key("published")).is_some());
    assert!(created.get(&key("updated")).is_some());
}

#[test]
fn create_merges_recipients_both_ways() {
    let mut object = DocObj::new();
    object.insert(s("to"), Doc::Arr(vec![Doc::Str(s("alice"))]));
    let mut activity = typed_activity("Create");
    activity.insert(s("to"), Doc::Arr(vec![Doc::Str(s("bob")), Doc::Str(s("alice"))]));
    activity.insert(key("object"), Doc::Arr(vec![Doc::Obj(object)]));

    let store = Store::new();
    let plan =
        submit_plan(&activity, &oid(ID_A), &ts(), &vec![oid(ID_B)], HOST, &store).unwrap();
    let created = match &plan.items[0] {
        PlanItem::CreateObj(d) => d,
        _ => panic!("expected a created object"),
    };
    // object had [alice]; the activity's [bob, alice] joins without duplicates
    match created.get("to") {
        Some(Doc::Arr(a)) => {
            assert_eq!(a.len(), 2);
            assert!(matches!(&a[0], Doc::Str(x) if x == "alice"));
            assert!(matches!(&a[1], Doc::Str(x) if x == "bob"));
        }
        _ => panic!("expected a recipient array"),
    }
}

#[test]
fn update_merge_deletes_null_and_overwrites() {
    let mut old = DocObj::new();
    old.insert(s("id"), Doc::Str(s(ID_A)));
    old.insert(s("foo"), Doc::Int(5));
    old.insert(s("bar"), Doc::Int(1));

    let mut patch_null = DocObj::new();
    patch_null.insert(s("foo"), Doc::Null);
    let mut merged = old.deep_copy();
    merge_patch(&mut merged, &patch_null);
    assert!(merged.get("foo").is_none());
    assert!(matches!(merged.get("bar"), Some(Doc::Int(1))));
    assert_eq!(str_field(&merged, "id"), ID_A);

    let mut patch_over = DocObj::new();
    patch_over.insert(s("foo"), Doc::Int(6));
    let mut merged = old.deep_copy();
    merge_patch(&mut merged, &patch_over);
    assert!(matches!(merged.get("foo"), Some(Doc::Int(6))));
    assert!(matches!(merged.get("bar"), Some(Doc::Int(1))));

    // the literal key `id` is never altered by a patch
    let mut patch_id = DocObj::new();
    patch_id.insert(s("id"), Doc::Str(s(ID_B)));
    let mut merged = old.deep_copy();
    merge_patch(&mut merged, &patch_id);
    assert_eq!(str_field(&merged, "id"), ID_A);
}

#[test]
fn delete_plans_tombstone_and_store_time_travels() {
    // store the object, then commit a Delete later: the latest version is a
    // tombstone with the same id, while a query before the delete still sees
    // the content
    let mut store = Store::new();
    let mut v1 = DocObj::new();
    v1.insert(s("id"), Doc::Str(s(ID_A)));
    v1.insert(s("updated"), Doc::Str(s("2021-06-01T00:00:00.000Z")));
    v1.insert(s("content"), Doc::Str(s("alive")));
    store.put(&v1).unwrap();

    let later = Timestamp { year: 2021, month: 12, day: 22, hour: 18, minute: 29, second: 0, milli: 0 };
    let tomb = make_tombstone(&oid(ID_A), &later);
    assert_eq!(str_field(&tomb, "id"), ID_A);
    assert_eq!(str_field(&tomb, "type"), "Tombstone");
    assert!(tomb.get("content").is_none());

    // a stripped tombstone carries plain instant strings
    let mut stripped = DocObj::new();
    stripped.insert(s("id"), Doc::Str(s(ID_A)));
    stripped.insert(s("type"), Doc::Str(s("Tombstone")));
    stripped.insert(s("updated"), Doc::Str(s("2021-12-22T18:29:00.000Z")));
    stripped.insert(s("deleted"), Doc::Str(s("2021-12-22T18:29:00.000Z")));
    store.put(&stripped).unwrap();

    let latest = store.get(&oid(ID_A)).unwrap();
    assert_eq!(str_field(&latest, "type"), "Tombstone");
    assert_eq!(str_field(&latest, "id"), ID_A);
    assert!(latest.get("content").is_none());

    let before = Timestamp { year: 2021, month: 7, day: 1, hour: 0, minute: 0, second: 0, milli: 0 };
    let old = store.get_record(&oid(ID_A), &before).unwrap();
    assert_eq!(str_field(&old, "content"), "alive");
}

#[test]
fn add_rejects_target_without_items() {
    let mut target = DocObj::new();
    target.insert(s("@type"), Doc::Arr(vec![Doc::Str(s("Collection"))]));
    let objects = vec![reference(ID_B)];
    let r = add_items(&mut target, &objects);
    assert_eq!(r, Err(Error::BadRequest(BadReason::NoItems)));
}

#[test]
fn add_appends_to_items_and_stamps() {
    // end to end over the store: put a collection, plan an Add, inspect the
    // new version
    let mut store = Store::new();
    let mut coll = DocObj::new();
    coll.insert(s("id"), Doc::Str(s(ID_C)));
    coll.insert(s("updated"), Doc::Str(s("2021-06-01T00:00:00.000Z")));
    coll.insert(s("@type"), Doc::Arr(vec![Doc::Str(s("OrderedCollection"))]));
    coll.insert(key("items"), Doc::Arr(vec![Doc::Str(s("first"))]));
    store.put(&coll).unwrap();

    let mut activity = typed_activity("Add");
    activity.insert(key("target"), Doc::Arr(vec![reference(ID_C)]));
    let mut note = DocObj::new();
    note.insert(s("content"), Doc::Str(s("second")));
    activity.insert(key("object"), Doc::Arr(vec![Doc::Obj(note)]));

    let plan =
        submit_plan(&activity, &oid(ID_A), &ts(), &Vec::new(), HOST, &store).unwrap();
    assert_eq!(plan.verb, Verb::Add);
    assert_eq!(plan.items.len(), 1);
    let next = match &plan.items[0] {
        PlanItem::NewVersion(d) => d,
        _ => panic!("expected a new collection version"),
    };
    match next.get(&key("items")) {
        Some(Doc::Arr(a)) => {
            assert_eq!(a.len(), 2);
            assert!(matches!(&a[0], Doc::Str(x) if x == "first"));
            assert!(matches!(&a[1], Doc::Obj(o) if str_field(o, "content") == "second"));
        }
        _ => panic!("expected the items array"),
    }
    assert!(next.get(&key("updated")).is_some());
}

#[test]
fn add_rejects_non_collection_target() {
    let mut store = Store::new();
    let mut plain = DocObj::new();
    plain.insert(s("id"), Doc::Str(s(ID_C)));
    plain.insert(s("updated"), Doc::Str(s("2021-06-01T00:00:00.000Z")));
    plain.insert(s("@type"), Doc::Arr(vec![Doc::Str(s("Note"))]));
    store.put(&plain).unwrap();

    let mut activity = typed_activity("Add");
    activity.insert(key("target"), Doc::Arr(vec![reference(ID_C)]));
    activity.insert(key("object"), Doc::Arr(vec![reference(ID_B)]));
    let r = submit_plan(&activity, &oid(ID_A), &ts(), &Vec::new(), HOST, &store);
    assert_eq!(r.err().unwrap(), Error::BadRequest(BadReason::NotACollection));
}

#[test]
fn remove_deletes_at_most_one_per_listed_object() {
    // duplicates stay: removing one x from [x, x, y] leaves [x, y]
    let x = Doc::Str(s("x"));
    let y = Doc::Str(s("y"));
    let mut origin = DocObj::new();
    origin.insert(
        key("items"),
        Doc::Arr(vec![x.deep_copy(), x.deep_copy(), y.deep_copy()]),
    );
    let objects = vec![x.deep_copy()];
    remove_items(&mut origin, &objects).unwrap();
    match origin.get(&key("items")) {
        Some(Doc::Arr(a)) => {
            assert_eq!(a.len(), 2);
            assert!(a[0].deep_eq(&x));
            assert!(a[1].deep_eq(&y));
        }
        _ => panic!("expected the items array"),
    }
}

#[test]
fn remove_falls_back_to_target() {
    let mut store = Store::new();
    let mut coll = DocObj::new();
    coll.insert(s("id"), Doc::Str(s(ID_C)));
    coll.insert(s("updated"), Doc::Str(s("2021-06-01T00:00:00.000Z")));
    coll.insert(s("@type"), Doc::Arr(vec![Doc::Str(s("Collection"))]));
    coll.insert(key("items"), Doc::Arr(vec![Doc::Str(s("gone"))]));
    store.put(&coll).unwrap();

    let mut activity = typed_activity("Remove");
    activity.insert(key("target"), Doc::Arr(vec![reference(ID_C)]));
    activity.insert(key("object"), Doc::Arr(vec![Doc::Str(s("gone"))]));
    let plan =
        submit_plan(&activity, &oid(ID_A), &ts(), &Vec::new(), HOST, &store).unwrap();
    let next = match &plan.items[0] {
        PlanItem::NewVersion(d) => d,
        _ => panic!("expected a new collection version"),
    };
    match next.get(&key("items")) {
        Some(Doc::Arr(a)) => assert_eq!(a.len(), 0),
        _ => panic!("expected the items array"),
    }
}

#[test]
fn update_plan_fetches_current_and_stamps_patch() {
    let mut store = Store::new();
    let mut v1 = DocObj::new();
    v1.insert(s("id"), Doc::Str(s(ID_A)));
    v1.insert(s("updated"), Doc::Str(s("2021-06-01T00:00:00.000Z")));
    v1.insert(s("foo"), Doc::Int(5));
    store.put(&v1).unwrap();

    let mut activity = typed_activity("Update");
    let mut patch = DocObj::new();
    let mut iri = String::from("https://localhost/post/");
    iri.push_str(ID_A);
    patch.insert(s("@id"), Doc::Str(iri));
    patch.insert(s("foo"), Doc::Int(6));
    activity.insert(key("object"), Doc::Arr(vec![Doc::Obj(patch)]));

    let plan =
        submit_plan(&activity, &oid(ID_B), &ts(), &Vec::new(), HOST, &store).unwrap();
    assert_eq!(plan.verb, Verb::Update);
    let (old, stamped) = match &plan.items[0] {
        PlanItem::UpdateMerge(o, p) => (o, p),
        _ => panic!("expected an update merge"),
    };
    assert!(matches!(old.get("foo"), Some(Doc::Int(5))));
    assert!(stamped.get(&key("updated")).is_some());
}

#[test]
fn update_of_missing_object_is_rejected() {
    let store = Store::new();
    let mut activity = typed_activity("Update");
    activity.insert(key("object"), Doc::Arr(vec![reference(ID_D)]));
    let r = submit_plan(&activity, &oid(ID_B), &ts(), &Vec::new(), HOST, &store);
    assert_eq!(r.err().unwrap(), Error::BadRequest(BadReason::ObjectNotFound));
}

#[test]
fn foreign_reference_is_a_bad_url() {
    let store = Store::new();
    let mut activity = typed_activity("Delete");
    let mut o = DocObj::new();
    o.insert(s("@id"), Doc::Str(s("https://elsewhere.example/post/aaaaaaaaaaaaaaaaaaaaaaaa")));
    activity.insert(key("object"), Doc::Arr(vec![Doc::Obj(o)]));
    let r = submit_plan(&activity, &oid(ID_B), &ts(), &Vec::new(), HOST, &store);
    assert_eq!(r.err().unwrap(), Error::BadRequest(BadReason::BadUrl));
}

#[test]
fn commit_writes_rows_and_finishes_activity() {
    // full Create round: plan, pretend-compact (the created object in
    // storable shape), commit, and read the store back
    let mut store = Store::new();
    let mut object = DocObj::new();
    object.insert(s("content"), Doc::Str(s("hello")));
    let mut activity = typed_activity("Create");
    activity.insert(key("object"), Doc::Arr(vec![Doc::Obj(object)]));

    let actor = oid(ID_A);
    let fresh = vec![oid(ID_B)];
    let plan = submit_plan(&activity, &actor, &ts(), &fresh, HOST, &store).unwrap();

    // what a conformant compaction of the finalized object stores
    let mut stripped = DocObj::new();
    stripped.insert(s("id"), Doc::Str(s(ID_B)));
    stripped.insert(s("updated"), Doc::Str(s("2021-12-22T18:29:00.000Z")));
    stripped.insert(s("content"), Doc::Str(s("hello")));
    let act = submit_commit(&plan, &vec![stripped], &oid(ID_C), &actor, &ts(), &mut store)
        .unwrap();
    assert_eq!(store.len(), 1);
    let got = store.get(&oid(ID_B)).unwrap();
    assert_eq!(str_field(&got, "content"), "hello");
    // the activity carries its own fresh identity and the actor
    assert_eq!(str_field(&act, "@id"), ID_C);
    match act.get(&key("actor")) {
        Some(Doc::Obj(a)) => assert_eq!(str_field(a, "@id"), ID_A),
        _ => panic!("expected the actor reference"),
    }
    assert!(act.get(&key("published")).is_some());
}

#[test]
fn non_array_type_breaks_expanded_shape() {
    let mut a = DocObj::new();
    a.insert(s("@type"), Doc::Str(key("Create")));
    assert_eq!(parse_verb(&a), Err(Error::Internal));
}

#[test]
fn create_without_object_clause_is_rejected() {
    let store = Store::new();
    let a = typed_activity("Create");
    let r = submit_plan(&a, &oid(ID_A), &ts(), &Vec::new(), HOST, &store);
    assert_eq!(r.err().unwrap(), Error::BadRequest(BadReason::InvalidObject));
}

#[test]
fn expansion_must_yield_one_object() {
    assert!(matches!(expansion_single_root(Vec::new()), Err(Error::Internal)));
    assert!(matches!(
        expansion_single_root(vec![Doc::Str(s("x"))]),
        Err(Error::Internal)
    ));
    let mut o = DocObj::new();
    o.insert(s("@id"), Doc::Str(s("x")));
    let got = expansion_single_root(vec![Doc::Obj(o)]).unwrap();
    assert!(got.get("@id").is_some());
}

#[test]
fn remove_names_origin_rejections() {
    // a missing origin is OriginNotFound; a non-collection one is
    // OriginNotACollection — each with the origin wording, not the target's
    let mut store = Store::new();
    let mut activity = typed_activity("Remove");
    activity.insert(key("origin"), Doc::Arr(vec![reference(ID_D)]));
    activity.insert(key("object"), Doc::Arr(vec![Doc::Str(s("x"))]));
    let r = submit_plan(&activity, &oid(ID_A), &ts(), &Vec::new(), HOST, &store);
    assert_eq!(r.err().unwrap(), Error::BadRequest(BadReason::OriginNotFound));

    let mut plain = DocObj::new();
    plain.insert(s("id"), Doc::Str(s(ID_D)));
    plain.insert(s("updated"), Doc::Str(s("2021-06-01T00:00:00.000Z")));
    plain.insert(s("@type"), Doc::Arr(vec![Doc::Str(s("Note"))]));
    store.put(&plain).unwrap();
    let r = submit_plan(&activity, &oid(ID_A), &ts(), &Vec::new(), HOST, &store);
    assert_eq!(
        r.err().unwrap(),
        Error::BadRequest(BadReason::OriginNotACollection)
    );
}

#[test]
fn add_without_direct_items_is_rejected_through_submit() {
    let mut store = Store::new();
    let mut coll = DocObj::new();
    coll.insert(s("id"), Doc::Str(s(ID_C)));
    coll.insert(s("updated"), Doc::Str(s("2021-06-01T00:00:00.000Z")));
    coll.insert(s("@type"), Doc::Arr(vec![Doc::Str(s("Collection"))]));
    store.put(&coll).unwrap();

    let mut activity = typed_activity("Add");
    activity.insert(key("target"), Doc::Arr(vec![reference(ID_C)]));
    activity.insert(key("object"), Doc::Arr(vec![reference(ID_B)]));
    let r = submit_plan(&activity, &oid(ID_A), &ts(), &Vec::new(), HOST, &store);
    assert_eq!(r.err().unwrap(), Error::BadRequest(BadReason::NoItems));
}
