//! The activity dispatch engine: the federation verb state machine. Each
//! submitted activity is expanded outside, interpreted here, and its effects
//! written through the store; the documents it persists pass back outside
//! for compaction between the planning and the committing half.

use vstd::prelude::*;
use vstd::string::*;

use crate::chars::str_eq;
use crate::context::{first_equiv, has_equiv, lemma_first_equiv};
use crate::doc::{
    docs_view, equiv, fields_view, keys_unique, lemma_arr_elem_wf, lemma_docs_view,
    lemma_fields_view, lemma_obj_del_props, lemma_obj_get_wf, lemma_obj_set_props,
    lemma_obj_wf_set_del, obj_del, obj_get, obj_has, obj_set, val_wf, Doc, DocObj, Val,
};
use crate::error::{BadReason, Error};
use crate::oid::{oid_hex, parse_oid, ObjectId};
use crate::store::{oid_render, lemma_oid_render_unique, oid_bytes, lemma_oid_bytes_upto};
use crate::time::{render_millis, render_rfc3339_millis, Timestamp};
use crate::util::{get_oid, oid_cut};

verus! {

broadcast use lemma_docs_view, lemma_fields_view;

/// The closed, extensible set of federation verbs the engine interprets.
#[derive(PartialEq, Eq, Structural, Clone, Copy, Debug)]
pub enum Verb {
    Create,
    Update,
    Delete,
    Follow,
    Add,
    Remove,
    Like,
    Block,
    Undo,
}

/// The verb a type IRI names, if any.
pub open spec fn verb_of_iri(s: Seq<char>) -> Option<Verb> {
    if s == "https://www.w3.org/ns/activitystreams#Create"@ {
        Some(Verb::Create)
    } else if s == "https://www.w3.org/ns/activitystreams#Update"@ {
        Some(Verb::Update)
    } else if s == "https://www.w3.org/ns/activitystreams#Delete"@ {
        Some(Verb::Delete)
    } else if s == "https://www.w3.org/ns/activitystreams#Follow"@ {
        Some(Verb::Follow)
    } else if s == "https://www.w3.org/ns/activitystreams#Add"@ {
        Some(Verb::Add)
    } else if s == "https://www.w3.org/ns/activitystreams#Remove"@ {
        Some(Verb::Remove)
    } else if s == "https://www.w3.org/ns/activitystreams#Like"@ {
        Some(Verb::Like)
    } else if s == "https://www.w3.org/ns/activitystreams#Block"@ {
        Some(Verb::Block)
    } else if s == "https://www.w3.org/ns/activitystreams#Undo"@ {
        Some(Verb::Undo)
    } else {
        None
    }
}

/// The first recognized verb among the expanded `@type` values; entries
/// that are not strings or name no verb are passed over.
pub open spec fn first_verb(types: Seq<Val>) -> Option<Verb>
    decreases types.len(),
{
    if types.len() == 0 {
        None
    } else {
        let head = match types[0] {
            Val::Str(s) => verb_of_iri(s),
            _ => None,
        };
        if head is Some {
            head
        } else {
            first_verb(types.drop_first())
        }
    }
}

/// The verb an IRI names, decided executably.
fn verb_of_iri_exec(s: &str) -> (r: Option<Verb>)
    ensures
        r == verb_of_iri(s@),
{
    if str_eq(s, "https://www.w3.org/ns/activitystreams#Create") {
        Some(Verb::Create)
    } else if str_eq(s, "https://www.w3.org/ns/activitystreams#Update") {
        Some(Verb::Update)
    } else if str_eq(s, "https://www.w3.org/ns/activitystreams#Delete") {
        Some(Verb::Delete)
    } else if str_eq(s, "https://www.w3.org/ns/activitystreams#Follow") {
        Some(Verb::Follow)
    } else if str_eq(s, "https://www.w3.org/ns/activitystreams#Add") {
        Some(Verb::Add)
    } else if str_eq(s, "https://www.w3.org/ns/activitystreams#Remove") {
        Some(Verb::Remove)
    } else if str_eq(s, "https://www.w3.org/ns/activitystreams#Like") {
        Some(Verb::Like)
    } else if str_eq(s, "https://www.w3.org/ns/activitystreams#Block") {
        Some(Verb::Block)
    } else if str_eq(s, "https://www.w3.org/ns/activitystreams#Undo") {
        Some(Verb::Undo)
    } else {
        None
    }
}

/// Read the verb of an expanded activity: the first `@type` value naming
/// one. A missing `@type` or one naming no verb is rejected; a non-array
/// `@type` breaks the expanded shape.
#[verifier::loop_isolation(false)]
pub fn parse_verb(json: &DocObj) -> (r: Result<Verb, Error>)
    requires
        json.wf(),
    ensures
        match r {
            Ok(v) => obj_has(json@, "@type"@) && obj_get(json@, "@type"@) is Arr && first_verb(
                obj_get(json@, "@type"@)->Arr_0,
            ) == Some(v),
            Err(e) => {
                &&& (e == Error::BadRequest(BadReason::MissingType) || e == Error::Internal || e
                    == Error::BadRequest(BadReason::UnknownType))
                &&& (e == Error::BadRequest(BadReason::MissingType) <==> !obj_has(json@, "@type"@))
                &&& (e == Error::Internal <==> obj_has(json@, "@type"@) && !(obj_get(
                    json@,
                    "@type"@,
                ) is Arr))
                &&& (e == Error::BadRequest(BadReason::UnknownType) <==> obj_has(json@, "@type"@)
                    && obj_get(json@, "@type"@) is Arr && first_verb(
                    obj_get(json@, "@type"@)->Arr_0,
                ) is None)
            },
        },
{
    let types = match json.get("@type") {
        None => {
            return Err(Error::BadRequest(BadReason::MissingType));
        },
        Some(d) => match d.as_arr() {
            None => {
                return Err(Error::Internal);
            },
            Some(a) => a,
        },
    };
    let ghost tv = obj_get(json@, "@type"@)->Arr_0;
    let n = types.len();
    proof {
        assert(tv.subrange(0, n as int) =~= tv);
    }
    let mut i: usize = 0;
    while i < n
        invariant
            n == types@.len(),
            i <= n,
            tv == docs_view(types@),
            tv.len() == n,
            forall|j: int| 0 <= j < n ==> #[trigger] tv[j] == types@[j]@,
            first_verb(tv.subrange(i as int, n as int)) == first_verb(tv),
        decreases n - i,
    {
        proof {
            assert(tv.subrange(i as int, n as int)[0] == tv[i as int]);
            assert(tv.subrange(i as int, n as int).drop_first() =~= tv.subrange(i + 1, n as int));
        }
        if let Some(s) = types[i].as_str() {
            if let Some(v) = verb_of_iri_exec(s.as_str()) {
                proof {
                    assert(tv[i as int] == Val::Str(s@));
                    assert(verb_of_iri(s@) == Some(v));
                    assert(first_verb(tv.subrange(i as int, n as int)) == Some(v));
                    assert(first_verb(tv) == Some(v));
                }
                return Ok(v);
            }
        }
        i += 1;
    }
    proof {
        assert(tv.subrange(n as int, n as int).len() == 0);
    }
    Err(Error::BadRequest(BadReason::UnknownType))
}

/// Whether an expanded object's `@type` set includes `Collection` or
/// `OrderedCollection` (bare names, as compacted documents carry them).
pub open spec fn types_include_collection(types: Seq<Val>) -> bool {
    exists|i: int|
        0 <= i < types.len() && (#[trigger] types[i] == Val::Str("Collection"@) || types[i]
            == Val::Str("OrderedCollection"@))
}

/// Decide whether the object is a collection by its `@type` values. A
/// missing `@type` is rejected; a non-array one breaks the expanded shape.
#[verifier::loop_isolation(false)]
pub fn is_collection(object: &DocObj) -> (r: Result<bool, Error>)
    requires
        object.wf(),
    ensures
        match r {
            Ok(b) => obj_has(object@, "@type"@) && obj_get(object@, "@type"@) is Arr && b
                == types_include_collection(obj_get(object@, "@type"@)->Arr_0),
            Err(e) => {
                &&& (e == Error::BadRequest(BadReason::MissingType) || e == Error::Internal)
                &&& (e == Error::BadRequest(BadReason::MissingType) <==> !obj_has(
                    object@,
                    "@type"@,
                ))
                &&& (e == Error::Internal <==> obj_has(object@, "@type"@) && !(obj_get(
                    object@,
                    "@type"@,
                ) is Arr))
            },
        },
{
    let types = match object.get("@type") {
        None => {
            return Err(Error::BadRequest(BadReason::MissingType));
        },
        Some(d) => match d.as_arr() {
            None => {
                return Err(Error::Internal);
            },
            Some(a) => a,
        },
    };
    let ghost tv = obj_get(object@, "@type"@)->Arr_0;
    let n = types.len();
    let mut i: usize = 0;
    while i < n
        invariant
            n == types@.len(),
            i <= n,
            tv == docs_view(types@),
            tv.len() == n,
            forall|j: int| 0 <= j < n ==> #[trigger] tv[j] == types@[j]@,
            forall|j: int|
                0 <= j < i ==> !(#[trigger] tv[j] == Val::Str("Collection"@) || tv[j] == Val::Str(
                    "OrderedCollection"@,
                )),
        decreases n - i,
    {
        if let Some(s) = types[i].as_str() {
            if crate::chars::string_is(s, "Collection") || crate::chars::string_is(
                s,
                "OrderedCollection",
            ) {
                proof {
                    assert(tv[i as int] == Val::Str(s@));
                    assert(types_include_collection(tv));
                }
                return Ok(true);
            }
        }
        i += 1;
    }
    Ok(false)
}

/// The identity a reference's `@id` IRI resolves to on `host`: the IRI must
/// have the shape `scheme://host/...`, and the substring of its path after
/// the rightmost `-` (or `/`) must be an identity string.
pub open spec fn iri_shape_ok(s: Seq<char>) -> bool {
    let p = crate::negotiate::first_index_of(s, ':');
    0 <= p && p + 3 <= s.len() && s[p + 1] == '/' && s[p + 2] == '/'
}

/// The host-and-path part of an IRI (meaningful under `iri_shape_ok`).
pub open spec fn iri_rest(s: Seq<char>) -> Seq<char> {
    let p = crate::negotiate::first_index_of(s, ':');
    s.subrange(p + 3, s.len() as int)
}

/// The host of an IRI: the rest up to the first `/`, or all of it.
pub open spec fn iri_host(s: Seq<char>) -> Seq<char> {
    let r = iri_rest(s);
    let q = crate::negotiate::first_index_of(r, '/');
    if 0 <= q < r.len() {
        r.subrange(0, q)
    } else {
        r
    }
}

/// The path of an IRI: the rest from the first `/` on, or empty.
pub open spec fn iri_path(s: Seq<char>) -> Seq<char> {
    let r = iri_rest(s);
    let q = crate::negotiate::first_index_of(r, '/');
    if 0 <= q < r.len() {
        r.subrange(q, r.len() as int)
    } else {
        Seq::empty()
    }
}

/// The identity token of an IRI's path (meaningful when `oid_cut` finds one).
pub open spec fn iri_oid_token(s: Seq<char>) -> Seq<char> {
    let path = iri_path(s);
    path.subrange(oid_cut(path) + 1, path.len() as int)
}

/// Whether an IRI on `host` carries a parseable identity.
pub open spec fn iri_id_ok(s: Seq<char>, host: Seq<char>) -> bool {
    &&& iri_shape_ok(s)
    &&& iri_host(s) == host
    &&& oid_cut(iri_path(s)) != -1
    &&& crate::oid::is_oid_str(iri_oid_token(s))
}

/// Resolve the `@id` of an expanded reference to a local identity. A
/// missing `@id` is rejected; a non-string one breaks the expanded shape; a
/// foreign or shapeless IRI is a bad URL.
pub fn get_id(object: &DocObj, host: &str) -> (r: Result<ObjectId, Error>)
    requires
        object.wf(),
    ensures
        match r {
            Ok(id) => obj_has(object@, "@id"@) && obj_get(object@, "@id"@) is Str && iri_id_ok(
                obj_get(object@, "@id"@)->Str_0,
                host@,
            ) && id.wf() && id.bytes@ == oid_bytes(iri_oid_token(obj_get(object@, "@id"@)->Str_0)),
            Err(e) => {
                &&& (e == Error::BadRequest(BadReason::MissingId) || e == Error::Internal || e
                    == Error::BadRequest(BadReason::BadUrl))
                &&& (e == Error::BadRequest(BadReason::MissingId) <==> !obj_has(object@, "@id"@))
                &&& (e == Error::Internal <==> obj_has(object@, "@id"@) && !(obj_get(
                    object@,
                    "@id"@,
                ) is Str))
                &&& (e == Error::BadRequest(BadReason::BadUrl) <==> obj_has(object@, "@id"@)
                    && obj_get(object@, "@id"@) is Str && !iri_id_ok(
                    obj_get(object@, "@id"@)->Str_0,
                    host@,
                ))
            },
        },
{
    let s: &String = match object.get("@id") {
        None => {
            return Err(Error::BadRequest(BadReason::MissingId));
        },
        Some(d) => match d.as_str() {
            None => {
                return Err(Error::Internal);
            },
            Some(s) => s,
        },
    };
    let iri = s.as_str();
    let n = iri.unicode_len();
    let p = match crate::negotiate::ffind_char(iri, ':') {
        Some(p) => p,
        None => {
            return Err(Error::BadRequest(BadReason::BadUrl));
        },
    };
    proof {
        crate::negotiate::lemma_first_index_of(iri@, ':');
    }
    if n < 3 || p > n - 3 || iri.get_char(p + 1) != '/' || iri.get_char(p + 2) != '/' {
        return Err(Error::BadRequest(BadReason::BadUrl));
    }
    let rest = iri.substring_char(p + 3, n);
    let rn = rest.unicode_len();
    let (host_part, path_part) = match crate::negotiate::ffind_char(rest, '/') {
        Some(q) => {
            proof {
                crate::negotiate::lemma_first_index_of(rest@, '/');
            }
            (rest.substring_char(0, q), rest.substring_char(q, rn))
        },
        None => (rest, rest.substring_char(rn, rn)),
    };
    if !str_eq(host_part, host) {
        return Err(Error::BadRequest(BadReason::BadUrl));
    }
    let token = match get_oid(path_part) {
        Some(t) => t,
        None => {
            return Err(Error::BadRequest(BadReason::BadUrl));
        },
    };
    match parse_oid(token) {
        Some(id) => {
            proof {
                lemma_oid_bytes_upto(token@, 12);
                assert(id.bytes@ =~= oid_bytes(token@));
            }
            Ok(id)
        },
        None => Err(Error::BadRequest(BadReason::BadUrl)),
    }
}

/// The recipient-addressing keys, in merge order.
pub open spec fn recipient_keys() -> Seq<Seq<char>> {
    seq!["to"@, "cc"@, "bto"@, "bcc"@, "audience"@]
}

/// Union of two recipient lists: entries of `add` join `base` unless a
/// structurally equal entry is already there; order of arrival is kept.
pub open spec fn merge_lists(base: Seq<Val>, add: Seq<Val>) -> Seq<Val>
    decreases add.len(),
{
    if add.len() == 0 {
        base
    } else {
        let b2 = if has_equiv(base, add[0]) {
            base
        } else {
            base.push(add[0])
        };
        merge_lists(b2, add.drop_first())
    }
}

/// One recipient key merged from `from` into `to`: nothing when `from`
/// lacks it; the union when both carry it; `from`'s list when only it does.
pub open spec fn merge_key_spec(
    from: Seq<(Seq<char>, Val)>,
    to: Seq<(Seq<char>, Val)>,
    k: Seq<char>,
) -> Seq<(Seq<char>, Val)> {
    if !obj_has(from, k) {
        to
    } else if obj_has(to, k) {
        obj_set(
            to,
            k,
            Val::Arr(merge_lists(obj_get(to, k)->Arr_0, obj_get(from, k)->Arr_0)),
        )
    } else {
        obj_set(to, k, obj_get(from, k))
    }
}

/// The first `i` recipient keys merged in order.
pub open spec fn merge_fold(
    from: Seq<(Seq<char>, Val)>,
    to: Seq<(Seq<char>, Val)>,
    i: int,
) -> Seq<(Seq<char>, Val)>
    decreases i,
{
    if i <= 0 {
        to
    } else {
        merge_key_spec(from, merge_fold(from, to, i - 1), recipient_keys()[i - 1])
    }
}

/// All recipient-addressing properties merged from `from` into `to`.
pub open spec fn copy_recipients_spec(
    from: Seq<(Seq<char>, Val)>,
    to: Seq<(Seq<char>, Val)>,
) -> Seq<(Seq<char>, Val)> {
    merge_fold(from, to, 5)
}

/// Whether the recipient lists of `from` and `to` have the expanded array
/// shape wherever a merge will read them.
pub open spec fn recipients_shape_ok(
    from: Seq<(Seq<char>, Val)>,
    to: Seq<(Seq<char>, Val)>,
) -> bool {
    forall|i: int|
        0 <= i < 5 ==> (obj_has(from, #[trigger] recipient_keys()[i]) ==> (obj_get(
            from,
            recipient_keys()[i],
        ) is Arr && (obj_has(to, recipient_keys()[i]) ==> obj_get(to, recipient_keys()[i]) is Arr)))
}

/// The recipient key at `i`.
fn recipient_key(i: usize) -> (k: &'static str)
    requires
        i < 5,
    ensures
        k@ == recipient_keys()[i as int],
{
    match i {
        0 => "to",
        1 => "cc",
        2 => "bto",
        3 => "bcc",
        _ => "audience",
    }
}


/// Distinctness of the recipient keys.
pub proof fn lemma_recipient_keys_distinct()
    ensures
        forall|a: int, b: int|
            0 <= a < b < 5 ==> #[trigger] recipient_keys()[a] != #[trigger] recipient_keys()[b],
{
    reveal_strlit("to");
    reveal_strlit("cc");
    reveal_strlit("bto");
    reveal_strlit("bcc");
    reveal_strlit("audience");
    let ks = recipient_keys();
    assert(ks[0].len() == 2 && ks[1].len() == 2 && ks[2].len() == 3 && ks[3].len() == 3 && ks[4].len() == 8);
    assert(ks[0][0] == 't' && ks[1][0] == 'c');
    assert(ks[2][1] == 't' && ks[3][1] == 'c');
    assert forall|a: int, b: int|
        0 <= a < b < 5 implies #[trigger] ks[a] != #[trigger] ks[b] by {}
}

/// `merge_fold` touches only the keys it has merged so far.
pub proof fn lemma_merge_fold_untouched(
    from: Seq<(Seq<char>, Val)>,
    to: Seq<(Seq<char>, Val)>,
    i: int,
    k: Seq<char>,
)
    requires
        keys_unique(to),
        0 <= i <= 5,
        forall|j: int| 0 <= j < i ==> k != #[trigger] recipient_keys()[j],
    ensures
        keys_unique(merge_fold(from, to, i)),
        obj_has(merge_fold(from, to, i), k) == obj_has(to, k),
        obj_has(to, k) ==> obj_get(merge_fold(from, to, i), k) == obj_get(to, k),
    decreases i,
{
    if i > 0 {
        lemma_merge_fold_untouched(from, to, i - 1, k);
        let prev = merge_fold(from, to, i - 1);
        let kk = recipient_keys()[i - 1];
        if obj_has(from, kk) {
            if obj_has(prev, kk) {
                lemma_obj_set_props(
                    prev,
                    kk,
                    Val::Arr(merge_lists(obj_get(prev, kk)->Arr_0, obj_get(from, kk)->Arr_0)),
                );
            } else {
                lemma_obj_set_props(prev, kk, obj_get(from, kk));
            }
        }
    }
}

/// `merge_fold` keeps keys unique at every prefix.
pub proof fn lemma_merge_fold_unique(from: Seq<(Seq<char>, Val)>, to: Seq<(Seq<char>, Val)>, i: int)
    requires
        keys_unique(to),
        0 <= i <= 5,
    ensures
        keys_unique(merge_fold(from, to, i)),
    decreases i,
{
    if i > 0 {
        lemma_merge_fold_unique(from, to, i - 1);
        let prev = merge_fold(from, to, i - 1);
        let kk = recipient_keys()[i - 1];
        if obj_has(from, kk) {
            if obj_has(prev, kk) {
                lemma_obj_set_props(
                    prev,
                    kk,
                    Val::Arr(merge_lists(obj_get(prev, kk)->Arr_0, obj_get(from, kk)->Arr_0)),
                );
            } else {
                lemma_obj_set_props(prev, kk, obj_get(from, kk));
            }
        }
    }
}

/// Merge one recipient key's list from `from` into `to`.
#[verifier::loop_isolation(false)]
fn merge_one_key(from: &DocObj, to: &mut DocObj, i: usize)
    requires
        i < 5,
        from.wf(),
        old(to).wf(),
        obj_has(from@, recipient_keys()[i as int]) ==> (obj_get(from@, recipient_keys()[i as int]) is Arr
            && (obj_has(old(to)@, recipient_keys()[i as int]) ==> obj_get(
            old(to)@,
            recipient_keys()[i as int],
        ) is Arr)),
    ensures
        final(to)@ == merge_key_spec(from@, old(to)@, recipient_keys()[i as int]),
        final(to).wf(),
{
    let k = recipient_key(i);
    let ghost kk = recipient_keys()[i as int];
    let from_arr: &Vec<Doc> = match from.get(k) {
        None => {
            return ;
        },
        Some(d) => match d.as_arr() {
            Some(a) => a,
            None => {
                proof {
                    assert(false);
                }
                return ;
            },
        },
    };
    proof {
        lemma_obj_get_wf(from@, kk);
    }
    let ghost addv = obj_get(from@, kk)->Arr_0;
    match to.get(k) {
        None => {
            let mut copied: Vec<Doc> = Vec::new();
            let m = from_arr.len();
            let mut j: usize = 0;
            while j < m
                invariant
                    m == from_arr@.len(),
                    j <= m,
                    copied@.len() == j,
                    forall|x: int| 0 <= x < j ==> copied@[x]@ == #[trigger] from_arr@[x]@,
                decreases m - j,
            {
                let c = from_arr[j].deep_copy();
                copied.push(c);
                j += 1;
            }
            proof {
                assert(docs_view(copied@) =~= addv);
                lemma_obj_wf_set_del(old(to)@, kk, obj_get(from@, kk));
            }
            to.insert(String::from_str(k), Doc::Arr(copied));
        },
        Some(d) => {
            let base: &Vec<Doc> = match d.as_arr() {
                Some(a) => a,
                None => {
                    proof {
                        assert(false);
                    }
                    return ;
                },
            };
            proof {
                lemma_obj_get_wf(old(to)@, kk);
            }
            let ghost basev = obj_get(old(to)@, kk)->Arr_0;
            let mut cur: Vec<Doc> = Vec::new();
            let bn = base.len();
            let mut j: usize = 0;
            while j < bn
                invariant
                    bn == base@.len(),
                    j <= bn,
                    cur@.len() == j,
                    forall|x: int| 0 <= x < j ==> cur@[x]@ == #[trigger] base@[x]@,
                decreases bn - j,
            {
                let c = base[j].deep_copy();
                cur.push(c);
                j += 1;
            }
            proof {
                assert(docs_view(cur@) =~= basev);
                assert forall|x: int| 0 <= x < cur@.len() implies (#[trigger] cur@[x]).wf() by {
                    lemma_arr_elem_wf(basev, x);
                    assert(basev[x] == base@[x]@);
                    assert(cur@[x]@ == base@[x]@);
                }
            }
            let m = from_arr.len();
            proof {
                assert(addv.subrange(0, m as int) =~= addv);
            }
            let mut j: usize = 0;
            while j < m
                invariant
                    m == from_arr@.len(),
                    j <= m,
                    addv.len() == m,
                    forall|x: int| 0 <= x < m ==> #[trigger] addv[x] == from_arr@[x]@,
                    forall|x: int| 0 <= x < cur@.len() ==> (#[trigger] cur@[x]).wf(),
                    merge_lists(docs_view(cur@), addv.subrange(j as int, m as int)) == merge_lists(
                        basev,
                        addv,
                    ),
                decreases m - j,
            {
                proof {
                    lemma_arr_elem_wf(addv, j as int);
                    assert(addv.subrange(j as int, m as int)[0] == addv[j as int]);
                    assert(addv.subrange(j as int, m as int).drop_first() =~= addv.subrange(
                        j + 1,
                        m as int,
                    ));
                }
                let x = &from_arr[j];
                let mut found = false;
                let cn = cur.len();
                let mut t: usize = 0;
                while t < cn
                    invariant
                        cn == cur@.len(),
                        t <= cn,
                        x.wf(),
                        forall|y: int| 0 <= y < cur@.len() ==> (#[trigger] cur@[y]).wf(),
                        found ==> exists|y: int|
                            0 <= y < cur@.len() && equiv(#[trigger] cur@[y]@, x@),
                        !found ==> forall|y: int| 0 <= y < t ==> !equiv(#[trigger] cur@[y]@, x@),
                    decreases cn - t,
                {
                    if cur[t].deep_eq(x) {
                        found = true;
                        break ;
                    }
                    t += 1;
                }
                proof {
                    if found {
                        let y = choose|y: int| 0 <= y < cur@.len() && equiv(cur@[y]@, x@);
                        assert(docs_view(cur@)[y] == cur@[y]@);
                        assert(has_equiv(docs_view(cur@), addv[j as int]));
                    } else {
                        assert forall|y: int|
                            0 <= y < docs_view(cur@).len() implies !equiv(
                            #[trigger] docs_view(cur@)[y],
                            addv[j as int],
                        ) by {
                            assert(docs_view(cur@)[y] == cur@[y]@);
                        }
                        assert(!has_equiv(docs_view(cur@), addv[j as int]));
                    }
                }
                let ghost cv = docs_view(cur@);
                if !found {
                    let c = x.deep_copy();
                    cur.push(c);
                    proof {
                        assert(docs_view(cur@) =~= cv.push(addv[j as int]));
                    }
                }
                proof {
                    let b2 = if has_equiv(cv, addv[j as int]) {
                        cv
                    } else {
                        cv.push(addv[j as int])
                    };
                    assert(docs_view(cur@) == b2);
                    assert(merge_lists(cv, addv.subrange(j as int, m as int)) == merge_lists(
                        b2,
                        addv.subrange(j + 1, m as int),
                    ));
                }
                j += 1;
            }
            proof {
                assert(addv.subrange(m as int, m as int).len() == 0);
                assert(merge_lists(docs_view(cur@), addv.subrange(m as int, m as int))
                    == docs_view(cur@));
                assert forall|x: int| 0 <= x < docs_view(cur@).len() implies val_wf(
                    #[trigger] docs_view(cur@)[x],
                ) by {
                    assert(docs_view(cur@)[x] == cur@[x]@);
                }
                assert(val_wf(Val::Arr(docs_view(cur@))));
                lemma_obj_wf_set_del(old(to)@, kk, Val::Arr(docs_view(cur@)));
            }
            to.insert(String::from_str(k), Doc::Arr(cur));
        },
    }
}

/// Merge the recipient-addressing properties (`to`, `cc`, `bto`, `bcc`,
/// `audience`) from `from` into `to`: arrays union element by element,
/// duplicates (by structural equality) skipped, existing entries first. A
/// non-array value under a key a merge reads breaks the expanded shape and
/// leaves `to` untouched.
#[verifier::loop_isolation(false)]
pub fn copy_recipients(from: &DocObj, to: &mut DocObj) -> (r: Result<(), Error>)
    requires
        from.wf(),
        old(to).wf(),
    ensures
        match r {
            Ok(()) => recipients_shape_ok(from@, old(to)@) && final(to)@ == copy_recipients_spec(
                from@,
                old(to)@,
            ) && final(to).wf(),
            Err(e) => e == Error::Internal && !recipients_shape_ok(from@, old(to)@) && *final(to)
                == *old(to),
        },
{
    let mut i: usize = 0;
    while i < 5
        invariant
            i <= 5,
            *to == *old(to),
            forall|j: int|
                0 <= j < i ==> (obj_has(from@, #[trigger] recipient_keys()[j]) ==> (obj_get(
                    from@,
                    recipient_keys()[j],
                ) is Arr && (obj_has(to@, recipient_keys()[j]) ==> obj_get(
                    to@,
                    recipient_keys()[j],
                ) is Arr))),
        decreases 5 - i,
    {
        let k = recipient_key(i);
        if let Some(d) = from.get(k) {
            match d.as_arr() {
                None => {
                    return Err(Error::Internal);
                },
                Some(_) => {
                    if let Some(td) = to.get(k) {
                        match td.as_arr() {
                            None => {
                                return Err(Error::Internal);
                            },
                            Some(_) => {},
                        }
                    }
                },
            }
        }
        i += 1;
    }
    proof {
        assert(recipients_shape_ok(from@, old(to)@));
        lemma_recipient_keys_distinct();
    }
    let mut i: usize = 0;
    while i < 5
        invariant
            i <= 5,
            recipients_shape_ok(from@, old(to)@),
            to@ == merge_fold(from@, old(to)@, i as int),
            to.wf(),
        decreases 5 - i,
    {
        proof {
            lemma_merge_fold_untouched(from@, old(to)@, i as int, recipient_keys()[i as int]);
        }
        merge_one_key(from, to, i);
        i += 1;
    }
    Ok(())
}

/// The merged document an update produces: a null-valued patch key deletes
/// that key, any other value overwrites it, and the literal key `id` is
/// never altered, whatever the patch holds under it.
pub open spec fn merge_patch_spec(
    o: Seq<(Seq<char>, Val)>,
    p: Seq<(Seq<char>, Val)>,
) -> Seq<(Seq<char>, Val)>
    decreases p.len(),
{
    if p.len() == 0 {
        o
    } else {
        let k = p[0].0;
        let v = p[0].1;
        let o2 = if k == "id"@ {
            o
        } else if v is Null {
            obj_del(o, k)
        } else {
            obj_set(o, k, v)
        };
        merge_patch_spec(o2, p.drop_first())
    }
}

/// The merge never alters the stored `id`.
pub proof fn lemma_merge_preserves_id(o: Seq<(Seq<char>, Val)>, p: Seq<(Seq<char>, Val)>)
    requires
        keys_unique(o),
    ensures
        keys_unique(merge_patch_spec(o, p)),
        obj_has(merge_patch_spec(o, p), "id"@) == obj_has(o, "id"@),
        obj_has(o, "id"@) ==> obj_get(merge_patch_spec(o, p), "id"@) == obj_get(o, "id"@),
    decreases p.len(),
{
    if p.len() > 0 {
        let k = p[0].0;
        let v = p[0].1;
        let o2 = if k == "id"@ {
            o
        } else if v is Null {
            obj_del(o, k)
        } else {
            obj_set(o, k, v)
        };
        if k != "id"@ {
            if v is Null {
                lemma_obj_del_props(o, k);
            } else {
                lemma_obj_set_props(o, k, v);
            }
        }
        lemma_merge_preserves_id(o2, p.drop_first());
    }
}

/// Merge an update patch into the current version, key by key.
#[verifier::loop_isolation(false)]
pub fn merge_patch(old_doc: &mut DocObj, patch: &DocObj)
    requires
        old(old_doc).wf(),
        patch.wf(),
    ensures
        final(old_doc)@ == merge_patch_spec(old(old_doc)@, patch@),
        final(old_doc).wf(),
{
    let ghost pv = patch@;
    let n = patch.fields.len();
    proof {
        assert(patch@ == fields_view(patch.fields@));
        assert(pv.len() == n);
        assert(pv.subrange(0, n as int) =~= pv);
    }
    let mut j: usize = 0;
    while j < n
        invariant
            n == patch.fields@.len(),
            pv.len() == n,
            j <= n,
            old_doc.wf(),
            merge_patch_spec(old_doc@, pv.subrange(j as int, n as int)) == merge_patch_spec(
                old(old_doc)@,
                pv,
            ),
        decreases n - j,
    {
        proof {
            assert(pv.subrange(j as int, n as int)[0] == pv[j as int]);
            assert(pv.subrange(j as int, n as int).drop_first() =~= pv.subrange(j + 1, n as int));
            assert(pv[j as int] == (patch.fields@[j as int].0@, patch.fields@[j as int].1@));
            assert(val_wf(pv[j as int].1));
        }
        let key = &patch.fields[j].0;
        if !str_eq(key.as_str(), "id") {
            if patch.fields[j].1.is_null() {
                proof {
                    lemma_obj_wf_set_del(old_doc@, pv[j as int].0, Val::Null);
                }
                old_doc.remove(key.as_str());
            } else {
                proof {
                    lemma_obj_wf_set_del(old_doc@, pv[j as int].0, pv[j as int].1);
                }
                let ghost before = old_doc@;
                let v = patch.fields[j].1.deep_copy();
                old_doc.insert(key.clone(), v);
            }
        }
        j += 1;
    }
    proof {
        assert(pv.subrange(n as int, n as int).len() == 0);
    }
}


/// The expanded datetime value the engine stamps: an object with the XSD
/// datetime type tag and the canonical instant rendering.
pub open spec fn datetime_val(ts: Timestamp) -> Val {
    Val::Obj(
        seq![("@type"@, Val::Str("xsd:dateTime"@)), ("@value"@, Val::Str(render_millis(ts)))],
    )
}

/// Build the datetime value for `ts`.
pub fn datetime(ts: &Timestamp) -> (r: Doc)
    requires
        ts.wf(),
    ensures
        r@ == datetime_val(*ts),
        r.wf(),
{
    let v = render_rfc3339_millis(ts);
    let mut fields: Vec<(String, Doc)> = Vec::new();
    fields.push((String::from_str("@type"), Doc::Str(String::from_str("xsd:dateTime"))));
    fields.push((String::from_str("@value"), Doc::Str(v)));
    let o = DocObj { fields };
    let r = Doc::Obj(o);
    proof {
        assert(r@->Obj_0 == fields_view(r->Obj_0.fields@));
        assert(r->Obj_0.fields@.len() == 2);
        assert(r@->Obj_0 =~= datetime_val(*ts)->Obj_0);
        reveal_strlit("@type");
        reveal_strlit("@value");
        let f = datetime_val(*ts)->Obj_0;
        assert(f[0].0.len() == 5 && f[1].0.len() == 6);
        assert(keys_unique(f));
        assert forall|i: int| 0 <= i < f.len() implies val_wf(#[trigger] f[i].1) by {
            assert(f[0].1 == Val::Str("xsd:dateTime"@));
            assert(f[1].1 == Val::Str(render_millis(*ts)));
        }
        assert(val_wf(Val::Obj(f)));
        assert(val_wf(r@));
    }
    r
}

/// The tombstone a delete writes: the target's identity, the `Tombstone`
/// sentinel type, and the request timestamp as `published`, `updated` and
/// `deleted`; no content carries over.
pub open spec fn tombstone_spec(id: Seq<u8>, ts: Timestamp) -> Seq<(Seq<char>, Val)> {
    seq![
        ("id"@, Val::Str(oid_render(id))),
        ("type"@, Val::Str("Tombstone"@)),
        ("published"@, datetime_val(ts)),
        ("updated"@, datetime_val(ts)),
        ("deleted"@, datetime_val(ts)),
    ]
}

/// Build the tombstone for `id` at `ts`.
pub fn make_tombstone(id: &ObjectId, ts: &Timestamp) -> (r: DocObj)
    requires
        id.wf(),
        ts.wf(),
    ensures
        r@ == tombstone_spec(id.bytes@, *ts),
        r.wf(),
{
    let id_str = oid_hex(id);
    proof {
        lemma_oid_render_unique(id.bytes@, id_str@);
    }
    let mut fields: Vec<(String, Doc)> = Vec::new();
    fields.push((String::from_str("id"), Doc::Str(id_str)));
    fields.push((String::from_str("type"), Doc::Str(String::from_str("Tombstone"))));
    fields.push((String::from_str("published"), datetime(ts)));
    fields.push((String::from_str("updated"), datetime(ts)));
    fields.push((String::from_str("deleted"), datetime(ts)));
    let r = DocObj { fields };
    proof {
        assert(r@ == fields_view(r.fields@));
        assert(r.fields@.len() == 5);
        assert(r@ =~= tombstone_spec(id.bytes@, *ts));
        reveal_strlit("id");
        reveal_strlit("type");
        reveal_strlit("published");
        reveal_strlit("updated");
        reveal_strlit("deleted");
        let f = tombstone_spec(id.bytes@, *ts);
        assert(f[0].0.len() == 2 && f[1].0.len() == 4 && f[2].0.len() == 9 && f[3].0.len() == 7
            && f[4].0.len() == 7);
        assert(f[3].0[0] == 'u' && f[4].0[0] == 'd');
        assert(keys_unique(f));
        assert forall|i: int| 0 <= i < f.len() implies val_wf(#[trigger] f[i].1) by {
            assert(val_wf(datetime_val(*ts))) by {
                let df = datetime_val(*ts)->Obj_0;
                reveal_strlit("@type");
                reveal_strlit("@value");
                assert(df[0].0.len() == 5 && df[1].0.len() == 6);
                assert(keys_unique(df));
            }
        }
        assert(r.wf());
    }
    r
}

/// The `items` property of a collection, under its expanded IRI.
pub open spec fn items_key() -> Seq<char> {
    "https://www.w3.org/ns/activitystreams#items"@
}

/// Append every listed object to the target's direct `items` array and
/// leave the rest of the target alone. A target without a direct `items`
/// array is rejected (paged collections are unsupported); a non-array
/// `items` value breaks the expanded shape.
pub fn add_items(target: &mut DocObj, objects: &Vec<Doc>) -> (r: Result<(), Error>)
    requires
        old(target).wf(),
        forall|i: int| 0 <= i < objects@.len() ==> (#[trigger] objects@[i]).wf(),
    ensures
        match r {
            Ok(()) => obj_has(old(target)@, items_key()) && obj_get(old(target)@, items_key())
                is Arr && final(target)@ == obj_set(
                old(target)@,
                items_key(),
                Val::Arr(obj_get(old(target)@, items_key())->Arr_0 + docs_view(objects@)),
            ) && final(target).wf(),
            Err(e) => {
                &&& (e == Error::BadRequest(BadReason::NoItems) || e == Error::Internal)
                &&& *final(target) == *old(target)
                &&& (e == Error::BadRequest(BadReason::NoItems) <==> !obj_has(
                    old(target)@,
                    items_key(),
                ))
                &&& (e == Error::Internal <==> obj_has(old(target)@, items_key()) && !(obj_get(
                    old(target)@,
                    items_key(),
                ) is Arr))
            },
        },
{
    let key = "https://www.w3.org/ns/activitystreams#items";
    let base: &Vec<Doc> = match target.get(key) {
        None => {
            return Err(Error::BadRequest(BadReason::NoItems));
        },
        Some(d) => match d.as_arr() {
            None => {
                return Err(Error::Internal);
            },
            Some(a) => a,
        },
    };
    proof {
        lemma_obj_get_wf(old(target)@, items_key());
    }
    let ghost basev = obj_get(old(target)@, items_key())->Arr_0;
    let mut cur: Vec<Doc> = Vec::new();
    let bn = base.len();
    let mut j: usize = 0;
    #[verifier::loop_isolation(false)]
    while j < bn
        invariant
            bn == base@.len(),
            j <= bn,
            cur@.len() == j,
            forall|x: int| 0 <= x < j ==> cur@[x]@ == #[trigger] base@[x]@,
        decreases bn - j,
    {
        let c = base[j].deep_copy();
        cur.push(c);
        j += 1;
    }
    let m = objects.len();
    let mut j: usize = 0;
    #[verifier::loop_isolation(false)]
    while j < m
        invariant
            m == objects@.len(),
            j <= m,
            cur@.len() == bn + j,
            forall|x: int| 0 <= x < bn ==> cur@[x]@ == #[trigger] base@[x]@,
            forall|x: int| 0 <= x < j ==> cur@[bn + x]@ == #[trigger] objects@[x]@,
        decreases m - j,
    {
        let c = objects[j].deep_copy();
        cur.push(c);
        j += 1;
    }
    proof {
        assert(docs_view(cur@) =~= basev + docs_view(objects@));
        assert forall|x: int| 0 <= x < docs_view(cur@).len() implies val_wf(
            #[trigger] docs_view(cur@)[x],
        ) by {
            assert(docs_view(cur@)[x] == cur@[x]@);
            if x < bn {
                lemma_arr_elem_wf(basev, x);
                assert(basev[x] == base@[x]@);
            } else {
                assert(cur@[x]@ == objects@[x - bn]@);
            }
        }
        assert(val_wf(Val::Arr(docs_view(cur@))));
        lemma_obj_wf_set_del(old(target)@, items_key(), Val::Arr(docs_view(cur@)));
    }
    target.insert(String::from_str(key), Doc::Arr(cur));
    Ok(())
}

/// What removal leaves of an `items` array: walking the items in order,
/// an item structurally equal to a still-unspent listed object consumes
/// that object (the first such) and drops out; every other item stays.
pub open spec fn remove_items_spec(items: Seq<Val>, objs: Seq<Val>) -> Seq<Val>
    decreases items.len(),
{
    if items.len() == 0 {
        Seq::empty()
    } else {
        let f = first_equiv(objs, items[0]);
        if f != -1 {
            remove_items_spec(items.drop_first(), objs.remove(f))
        } else {
            seq![items[0]] + remove_items_spec(items.drop_first(), objs)
        }
    }
}

/// With no listed objects, removal leaves the items alone.
pub proof fn lemma_remove_items_empty(items: Seq<Val>)
    ensures
        remove_items_spec(items, Seq::empty()) == items,
    decreases items.len(),
{
    if items.len() > 0 {
        lemma_remove_items_empty(items.drop_first());
        assert(remove_items_spec(items, Seq::empty()) =~= items);
    } else {
        assert(remove_items_spec(items, Seq::empty()) =~= items);
    }
}

/// The first item structurally equal to `o`, or -1.
pub open spec fn first_hit(items: Seq<Val>, o: Val) -> int
    decreases items.len(),
{
    if items.len() == 0 {
        -1
    } else if equiv(o, items[0]) {
        0
    } else {
        let r = first_hit(items.drop_first(), o);
        if r == -1 {
            -1
        } else {
            r + 1
        }
    }
}

/// Removal of a single listed object deletes at most one entry: none when
/// no item equals it, else exactly the first equal item — duplicates of
/// that item all stay.
pub proof fn lemma_remove_at_most_one(items: Seq<Val>, o: Val)
    ensures
        first_hit(items, o) == -1 ==> remove_items_spec(items, seq![o]) == items,
        first_hit(items, o) != -1 ==> 0 <= first_hit(items, o) < items.len()
            && remove_items_spec(items, seq![o]) == items.remove(first_hit(items, o)),
    decreases items.len(),
{
    if items.len() > 0 {
        let single = seq![o];
        assert(single.len() == 1 && single[0] == o);
        assert(single.drop_first().len() == 0);
        assert(first_equiv(single.drop_first(), items[0]) == -1);
        assert(first_equiv(single, items[0]) == if equiv(o, items[0]) {
            0int
        } else {
            -1int
        });
        if equiv(o, items[0]) {
            assert(single.remove(0) =~= Seq::<Val>::empty());
            lemma_remove_items_empty(items.drop_first());
            assert(remove_items_spec(items, single) == items.drop_first());
            assert(items.remove(0) =~= items.drop_first());
        } else {
            lemma_remove_at_most_one(items.drop_first(), o);
            let r = first_hit(items.drop_first(), o);
            if r == -1 {
                assert(remove_items_spec(items, single) =~= items);
            } else {
                assert(first_hit(items, o) == r + 1);
                assert(remove_items_spec(items, single) == seq![items[0]] + items.drop_first()
                    .remove(r));
                assert(seq![items[0]] + items.drop_first().remove(r) =~= items.remove(r + 1));
            }
        }
    }
}

/// Remove from the origin's direct `items` array at most one structurally
/// equal entry per listed object and leave the rest of the origin alone.
/// An origin without a direct `items` array is rejected (paged collections
/// are unsupported); a non-array `items` value breaks the expanded shape.
#[verifier::loop_isolation(false)]
pub fn remove_items(origin: &mut DocObj, objects: &Vec<Doc>) -> (r: Result<(), Error>)
    requires
        old(origin).wf(),
        forall|i: int| 0 <= i < objects@.len() ==> (#[trigger] objects@[i]).wf(),
    ensures
        match r {
            Ok(()) => obj_has(old(origin)@, items_key()) && obj_get(old(origin)@, items_key())
                is Arr && final(origin)@ == obj_set(
                old(origin)@,
                items_key(),
                Val::Arr(
                    remove_items_spec(
                        obj_get(old(origin)@, items_key())->Arr_0,
                        docs_view(objects@),
                    ),
                ),
            ) && final(origin).wf(),
            Err(e) => {
                &&& (e == Error::BadRequest(BadReason::NoItems) || e == Error::Internal)
                &&& *final(origin) == *old(origin)
                &&& (e == Error::BadRequest(BadReason::NoItems) <==> !obj_has(
                    old(origin)@,
                    items_key(),
                ))
                &&& (e == Error::Internal <==> obj_has(old(origin)@, items_key()) && !(obj_get(
                    old(origin)@,
                    items_key(),
                ) is Arr))
            },
        },
{
    let key = "https://www.w3.org/ns/activitystreams#items";
    let items: &Vec<Doc> = match origin.get(key) {
        None => {
            return Err(Error::BadRequest(BadReason::NoItems));
        },
        Some(d) => match d.as_arr() {
            None => {
                return Err(Error::Internal);
            },
            Some(a) => a,
        },
    };
    proof {
        lemma_obj_get_wf(old(origin)@, items_key());
    }
    let ghost itemsv = obj_get(old(origin)@, items_key())->Arr_0;
    let mut pool: Vec<Doc> = Vec::new();
    let pn = objects.len();
    let mut j: usize = 0;
    while j < pn
        invariant
            pn == objects@.len(),
            j <= pn,
            pool@.len() == j,
            forall|x: int| 0 <= x < j ==> pool@[x]@ == #[trigger] objects@[x]@,
            forall|x: int| 0 <= x < j ==> (#[trigger] pool@[x]).wf(),
        decreases pn - j,
    {
        let c = objects[j].deep_copy();
        pool.push(c);
        j += 1;
    }
    proof {
        assert(docs_view(pool@) =~= docs_view(objects@));
    }
    let mut out: Vec<Doc> = Vec::new();
    let n = items.len();
    proof {
        assert(itemsv.subrange(0, n as int) =~= itemsv);
    }
    let mut j: usize = 0;
    while j < n
        invariant
            n == items@.len(),
            itemsv.len() == n,
            j <= n,
            forall|x: int| 0 <= x < n ==> #[trigger] itemsv[x] == items@[x]@,
            forall|x: int| 0 <= x < pool@.len() ==> (#[trigger] pool@[x]).wf(),
            forall|x: int| 0 <= x < out@.len() ==> (#[trigger] out@[x]).wf(),
            docs_view(out@) + remove_items_spec(
                itemsv.subrange(j as int, n as int),
                docs_view(pool@),
            ) == remove_items_spec(itemsv, docs_view(objects@)),
        decreases n - j,
    {
        proof {
            assert(itemsv.subrange(j as int, n as int)[0] == itemsv[j as int]);
            assert(itemsv.subrange(j as int, n as int).drop_first() =~= itemsv.subrange(
                j + 1,
                n as int,
            ));
            lemma_arr_elem_wf(itemsv, j as int);
        }
        let item = &items[j];
        let ghost poolv = docs_view(pool@);
        let mut hit: Option<usize> = None;
        let cn = pool.len();
        let mut t: usize = 0;
        while t < cn
            invariant
                cn == pool@.len(),
                t <= cn,
                item.wf(),
                hit is None,
                forall|x: int| 0 <= x < pool@.len() ==> (#[trigger] pool@[x]).wf(),
                forall|y: int| 0 <= y < t ==> !equiv(#[trigger] pool@[y]@, item@),
            decreases cn - t,
        {
            if pool[t].deep_eq(item) {
                hit = Some(t);
                break ;
            }
            t += 1;
        }
        match hit {
            Some(t) => {
                proof {
                    lemma_first_equiv(poolv, itemsv[j as int]);
                    assert forall|y: int| 0 <= y < t implies !equiv(
                        #[trigger] poolv[y],
                        itemsv[j as int],
                    ) by {
                        assert(poolv[y] == pool@[y]@);
                    }
                    assert(poolv[t as int] == pool@[t as int]@);
                    assert(equiv(poolv[t as int], itemsv[j as int]));
                    assert(first_equiv(poolv, itemsv[j as int]) == t as int);
                }
                pool.remove(t);
                proof {
                    assert(docs_view(pool@) =~= poolv.remove(t as int));
                }
            },
            None => {
                proof {
                    lemma_first_equiv(poolv, itemsv[j as int]);
                    assert forall|y: int| 0 <= y < poolv.len() implies !equiv(
                        #[trigger] poolv[y],
                        itemsv[j as int],
                    ) by {
                        assert(poolv[y] == pool@[y]@);
                    }
                    if first_equiv(poolv, itemsv[j as int]) != -1 {
                        assert(equiv(poolv[first_equiv(poolv, itemsv[j as int])], itemsv[j as int]));
                    }
                }
                let ghost ov = docs_view(out@);
                let c = item.deep_copy();
                out.push(c);
                proof {
                    assert(docs_view(out@) =~= ov.push(itemsv[j as int]));
                    assert(ov.push(itemsv[j as int]) =~= ov + seq![itemsv[j as int]]);
                    assert((ov + seq![itemsv[j as int]]) + remove_items_spec(
                        itemsv.subrange(j + 1, n as int),
                        poolv,
                    ) =~= ov + (seq![itemsv[j as int]] + remove_items_spec(
                        itemsv.subrange(j + 1, n as int),
                        poolv,
                    )));
                }
            },
        }
        j += 1;
    }
    proof {
        assert(itemsv.subrange(n as int, n as int).len() == 0);
        assert(remove_items_spec(itemsv.subrange(n as int, n as int), docs_view(pool@))
            =~= Seq::<Val>::empty());
        assert(docs_view(out@) + Seq::<Val>::empty() =~= docs_view(out@));
        assert forall|x: int| 0 <= x < docs_view(out@).len() implies val_wf(
            #[trigger] docs_view(out@)[x],
        ) by {
            assert(docs_view(out@)[x] == out@[x]@);
        }
        assert(val_wf(Val::Arr(docs_view(out@))));
        lemma_obj_wf_set_del(old(origin)@, items_key(), Val::Arr(docs_view(out@)));
    }
    origin.insert(String::from_str(key), Doc::Arr(out));
    Ok(())
}


/// Well-known expanded property IRIs of the engine.
pub open spec fn object_key() -> Seq<char> {
    "https://www.w3.org/ns/activitystreams#object"@
}

/// The `target` property IRI.
pub open spec fn target_key() -> Seq<char> {
    "https://www.w3.org/ns/activitystreams#target"@
}

/// The `origin` property IRI.
pub open spec fn origin_key() -> Seq<char> {
    "https://www.w3.org/ns/activitystreams#origin"@
}

/// The `actor` property IRI.
pub open spec fn actor_key() -> Seq<char> {
    "https://www.w3.org/ns/activitystreams#actor"@
}

/// The `attributedTo` property IRI.
pub open spec fn attributed_key() -> Seq<char> {
    "https://www.w3.org/ns/activitystreams#attributedTo"@
}

/// The `published` property IRI.
pub open spec fn published_key() -> Seq<char> {
    "https://www.w3.org/ns/activitystreams#published"@
}

/// The `updated` property IRI.
pub open spec fn updated_key() -> Seq<char> {
    "https://www.w3.org/ns/activitystreams#updated"@
}

/// An actor reference value: an expanded node object naming the actor.
pub open spec fn actor_ref_val(actor: Seq<u8>) -> Val {
    Val::Obj(seq![("@id"@, Val::Str(oid_render(actor)))])
}

/// Build an actor reference.
pub fn actor_ref(actor: &ObjectId) -> (r: Doc)
    requires
        actor.wf(),
    ensures
        r@ == actor_ref_val(actor.bytes@),
        r.wf(),
{
    let h = oid_hex(actor);
    proof {
        lemma_oid_render_unique(actor.bytes@, h@);
    }
    let mut fields: Vec<(String, Doc)> = Vec::new();
    fields.push((String::from_str("@id"), Doc::Str(h)));
    let o = DocObj { fields };
    let r = Doc::Obj(o);
    proof {
        assert(r@->Obj_0 == fields_view(r->Obj_0.fields@));
        assert(r->Obj_0.fields@.len() == 1);
        assert(r@->Obj_0 =~= actor_ref_val(actor.bytes@)->Obj_0);
        let f = actor_ref_val(actor.bytes@)->Obj_0;
        assert(keys_unique(f));
        assert(f[0].1 == Val::Str(oid_render(actor.bytes@)));
        assert forall|i: int| 0 <= i < f.len() implies val_wf(#[trigger] f[i].1) by {}
        assert(val_wf(Val::Obj(f)));
    }
    r
}

/// The identity bytes an expanded reference's `@id` IRI names.
pub open spec fn ref_id_bytes(o: Seq<(Seq<char>, Val)>) -> Seq<u8> {
    oid_bytes(iri_oid_token(obj_get(o, "@id"@)->Str_0))
}

/// The rejection a listed reference earns, if any: it must be an expanded
/// node object whose `@id` is a string IRI naming a local identity.
pub open spec fn ref_error(o: Val, host: Seq<char>) -> Option<Error> {
    if !(o is Obj) {
        Some(Error::Internal)
    } else if !obj_has(o->Obj_0, "@id"@) {
        Some(Error::BadRequest(BadReason::MissingId))
    } else if !(obj_get(o->Obj_0, "@id"@) is Str) {
        Some(Error::Internal)
    } else if !iri_id_ok(obj_get(o->Obj_0, "@id"@)->Str_0, host) {
        Some(Error::BadRequest(BadReason::BadUrl))
    } else {
        None
    }
}

/// The rejection an Update reference earns, if any: a shapely reference
/// whose identity has no stored version cannot be updated.
pub open spec fn update_ref_error(
    o: Val,
    host: Seq<char>,
    store: Seq<crate::store::RowModel>,
) -> Option<Error> {
    match ref_error(o, host) {
        Some(e) => Some(e),
        None => if crate::store::latest_index(store, ref_id_bytes(o->Obj_0)) == -1 {
            Some(Error::BadRequest(BadReason::ObjectNotFound))
        } else {
            None
        },
    }
}

/// The first rejection among an Update's references, scanned in order.
pub open spec fn update_scan(
    objs: Seq<Val>,
    host: Seq<char>,
    store: Seq<crate::store::RowModel>,
) -> Option<Error>
    decreases objs.len(),
{
    if objs.len() == 0 {
        None
    } else {
        match update_ref_error(objs[0], host, store) {
            Some(e) => Some(e),
            None => update_scan(objs.drop_first(), host, store),
        }
    }
}

/// The first rejection among a Delete's references, scanned in order.
pub open spec fn delete_scan(objs: Seq<Val>, host: Seq<char>) -> Option<Error>
    decreases objs.len(),
{
    if objs.len() == 0 {
        None
    } else {
        match ref_error(objs[0], host) {
            Some(e) => Some(e),
            None => delete_scan(objs.drop_first(), host),
        }
    }
}

/// The rejection a resolved collection earns, if any: its type set must
/// name a collection and it must carry a direct `items` array; `origin`
/// picks Remove's wording over Add's.
pub open spec fn collection_error(cur: Seq<(Seq<char>, Val)>, origin: bool) -> Option<Error> {
    if !obj_has(cur, "@type"@) {
        Some(Error::BadRequest(BadReason::MissingType))
    } else if !(obj_get(cur, "@type"@) is Arr) {
        Some(Error::Internal)
    } else if !types_include_collection(obj_get(cur, "@type"@)->Arr_0) {
        Some(
            Error::BadRequest(
                if origin {
                    BadReason::OriginNotACollection
                } else {
                    BadReason::NotACollection
                },
            ),
        )
    } else if !obj_has(cur, items_key()) {
        Some(Error::BadRequest(BadReason::NoItems))
    } else if !(obj_get(cur, items_key()) is Arr) {
        Some(Error::Internal)
    } else {
        None
    }
}

/// The rejection an Add target (or Remove origin) earns, if any: the
/// reference must be shapely, its identity stored, and its current version
/// a collection with a direct `items` array.
pub open spec fn target_error(
    t: Val,
    host: Seq<char>,
    store: Seq<crate::store::RowModel>,
    origin: bool,
) -> Option<Error> {
    match ref_error(t, host) {
        Some(e) => Some(e),
        None => {
            let li = crate::store::latest_index(store, ref_id_bytes(t->Obj_0));
            if li == -1 {
                Some(
                    Error::BadRequest(
                        if origin {
                            BadReason::OriginNotFound
                        } else {
                            BadReason::TargetNotFound
                        },
                    ),
                )
            } else {
                collection_error(crate::store::restore(store[li]), origin)
            }
        },
    }
}

/// The first rejection among an Add's targets or a Remove's origins,
/// scanned in order.
pub open spec fn targets_scan(
    ts: Seq<Val>,
    host: Seq<char>,
    store: Seq<crate::store::RowModel>,
    origin: bool,
) -> Option<Error>
    decreases ts.len(),
{
    if ts.len() == 0 {
        None
    } else {
        match target_error(ts[0], host, store, origin) {
            Some(e) => Some(e),
            None => targets_scan(ts.drop_first(), host, store, origin),
        }
    }
}

/// The outcome an Update's planning owes: the `object` clause must be an
/// expanded array, every reference shapely with a stored current version.
pub open spec fn update_error_spec(
    a: Seq<(Seq<char>, Val)>,
    host: Seq<char>,
    store: Seq<crate::store::RowModel>,
) -> Option<Error> {
    if !obj_has(a, object_key()) {
        Some(Error::BadRequest(BadReason::InvalidObject))
    } else if !(obj_get(a, object_key()) is Arr) {
        Some(Error::Internal)
    } else {
        update_scan(obj_get(a, object_key())->Arr_0, host, store)
    }
}

/// The outcome a Delete's planning owes: the `object` clause must be an
/// expanded array of shapely references.
pub open spec fn delete_error_spec(a: Seq<(Seq<char>, Val)>, host: Seq<char>) -> Option<Error> {
    if !obj_has(a, object_key()) {
        Some(Error::BadRequest(BadReason::InvalidObject))
    } else if !(obj_get(a, object_key()) is Arr) {
        Some(Error::Internal)
    } else {
        delete_scan(obj_get(a, object_key())->Arr_0, host)
    }
}

/// The outcome an Add's planning owes: the `object` clause read first, then
/// the `target` clause, then each target in order.
pub open spec fn add_error_spec(
    a: Seq<(Seq<char>, Val)>,
    host: Seq<char>,
    store: Seq<crate::store::RowModel>,
) -> Option<Error> {
    if !obj_has(a, object_key()) {
        Some(Error::BadRequest(BadReason::InvalidObject))
    } else if !(obj_get(a, object_key()) is Arr) {
        Some(Error::Internal)
    } else if !obj_has(a, target_key()) {
        Some(Error::BadRequest(BadReason::InvalidTarget))
    } else if !(obj_get(a, target_key()) is Arr) {
        Some(Error::Internal)
    } else {
        targets_scan(obj_get(a, target_key())->Arr_0, host, store, false)
    }
}

/// The outcome a Remove's planning owes: the `object` clause read first,
/// then the `origin` clause — the `target` clause standing in when no
/// origin is listed — then each origin in order.
pub open spec fn remove_error_spec(
    a: Seq<(Seq<char>, Val)>,
    host: Seq<char>,
    store: Seq<crate::store::RowModel>,
) -> Option<Error> {
    if !obj_has(a, object_key()) {
        Some(Error::BadRequest(BadReason::InvalidObject))
    } else if !(obj_get(a, object_key()) is Arr) {
        Some(Error::Internal)
    } else {
        let okey = if obj_has(a, origin_key()) {
            origin_key()
        } else {
            target_key()
        };
        if !obj_has(a, okey) {
            Some(Error::BadRequest(BadReason::InvalidOrigin))
        } else if !(obj_get(a, okey) is Arr) {
            Some(Error::Internal)
        } else {
            targets_scan(obj_get(a, okey)->Arr_0, host, store, true)
        }
    }
}

/// One deferred effect of a submitted activity, to be compacted outside and
/// then committed: a created object's first version, an update to merge over
/// the fetched current version, a delete's tombstone, or a collection's
/// replacement version.
pub enum PlanItem {
    CreateObj(DocObj),
    UpdateMerge(DocObj, DocObj),
    Tombstone(DocObj),
    NewVersion(DocObj),
}

impl PlanItem {
    /// The document the outside compaction must strip for this effect.
    pub fn doc_to_strip<'a>(&'a self) -> (r: &'a DocObj)
        ensures
            *r == self.spec_doc_to_strip(),
    {
        match self {
            PlanItem::CreateObj(d) => d,
            PlanItem::UpdateMerge(_, p) => p,
            PlanItem::Tombstone(d) => d,
            PlanItem::NewVersion(d) => d,
        }
    }

    /// The document to strip, at the specification level.
    pub open spec fn spec_doc_to_strip(&self) -> DocObj {
        match self {
            PlanItem::CreateObj(d) => *d,
            PlanItem::UpdateMerge(_, p) => *p,
            PlanItem::Tombstone(d) => *d,
            PlanItem::NewVersion(d) => *d,
        }
    }

    /// Every document this effect holds is well-formed.
    pub open spec fn wf(&self) -> bool {
        match self {
            PlanItem::CreateObj(d) => d.wf(),
            PlanItem::UpdateMerge(o, p) => o.wf() && p.wf(),
            PlanItem::Tombstone(d) => d.wf(),
            PlanItem::NewVersion(d) => d.wf(),
        }
    }
}

/// A submitted activity interpreted: its verb, the activity document after
/// the verb's transformation, and the effects awaiting compaction and
/// commitment.
pub struct Plan {
    pub verb: Verb,
    pub activity: DocObj,
    pub items: Vec<PlanItem>,
}

impl Plan {
    /// Every document of the plan is well-formed.
    pub open spec fn wf(&self) -> bool {
        self.activity.wf() && forall|i: int|
            0 <= i < self.items@.len() ==> (#[trigger] self.items@[i]).wf()
    }
}

/// One Create step: recipients merge both ways, the submitting actor is
/// written over any claimed attribution, a brand-new identity overwrites any
/// client-supplied one, and the timestamp stamps `published` and `updated`.
pub open spec fn create_step(
    json: Seq<(Seq<char>, Val)>,
    obj: Seq<(Seq<char>, Val)>,
    actor: Seq<u8>,
    ts: Timestamp,
    id: Seq<u8>,
) -> (Seq<(Seq<char>, Val)>, Seq<(Seq<char>, Val)>) {
    let o1 = copy_recipients_spec(json, obj);
    let j1 = copy_recipients_spec(o1, json);
    let o2 = obj_set(o1, attributed_key(), actor_ref_val(actor));
    let o3 = obj_set(o2, "@id"@, Val::Str(oid_render(id)));
    let o4 = obj_set(o3, published_key(), datetime_val(ts));
    let o5 = obj_set(o4, updated_key(), datetime_val(ts));
    (j1, o5)
}

/// The first `i` embedded objects of a Create processed in order, threading
/// the recipient merges through the activity.
pub open spec fn create_fold(
    json: Seq<(Seq<char>, Val)>,
    objs: Seq<Val>,
    actor: Seq<u8>,
    ts: Timestamp,
    ids: Seq<ObjectId>,
    i: int,
) -> (Seq<(Seq<char>, Val)>, Seq<Val>)
    decreases i,
{
    if i <= 0 {
        (json, Seq::empty())
    } else {
        let prev = create_fold(json, objs, actor, ts, ids, i - 1);
        let step = create_step(prev.0, objs[i - 1]->Obj_0, actor, ts, ids[i - 1].bytes@);
        (step.0, prev.1.push(Val::Obj(step.1)))
    }
}

/// The objects a fold has produced grow by appending: earlier entries stand.
pub proof fn lemma_create_fold_prefix(
    json: Seq<(Seq<char>, Val)>,
    objs: Seq<Val>,
    actor: Seq<u8>,
    ts: Timestamp,
    ids: Seq<ObjectId>,
    i: int,
)
    requires
        i >= 0,
    ensures
        create_fold(json, objs, actor, ts, ids, i).1.len() == i,
        forall|j: int|
            0 <= j < i ==> #[trigger] create_fold(json, objs, actor, ts, ids, i).1[j] == create_fold(
                json,
                objs,
                actor,
                ts,
                ids,
                j + 1,
            ).1[j],
    decreases i,
{
    if i > 0 {
        lemma_create_fold_prefix(json, objs, actor, ts, ids, i - 1);
    }
}

/// Whether the first `k` embedded objects of a Create can be processed:
/// each is an expanded node object, and the recipient lists the two merges
/// at its step read all have the expanded array shape.
pub open spec fn create_ready(
    json: Seq<(Seq<char>, Val)>,
    objs: Seq<Val>,
    actor: Seq<u8>,
    ts: Timestamp,
    ids: Seq<ObjectId>,
    k: int,
) -> bool
    decreases k,
{
    if k <= 0 {
        true
    } else {
        create_ready(json, objs, actor, ts, ids, k - 1) && objs[k - 1] is Obj && {
            let jk = create_fold(json, objs, actor, ts, ids, k - 1).0;
            let o = objs[k - 1]->Obj_0;
            recipients_shape_ok(jk, o) && recipients_shape_ok(copy_recipients_spec(jk, o), jk)
        }
    }
}

/// Readiness of a longer prefix carries down to every shorter one.
pub proof fn lemma_create_ready_mono(
    json: Seq<(Seq<char>, Val)>,
    objs: Seq<Val>,
    actor: Seq<u8>,
    ts: Timestamp,
    ids: Seq<ObjectId>,
    k: int,
    n: int,
)
    requires
        0 <= k <= n,
        create_ready(json, objs, actor, ts, ids, n),
    ensures
        create_ready(json, objs, actor, ts, ids, k),
    decreases n,
{
    if n > k {
        lemma_create_ready_mono(json, objs, actor, ts, ids, k, n - 1);
    }
}

/// Every stored Create object carries the server-assigned identity and the
/// submitting actor, whatever identity or attribution the client sent.
pub proof fn lemma_create_overrides(
    json: Seq<(Seq<char>, Val)>,
    obj: Seq<(Seq<char>, Val)>,
    actor: Seq<u8>,
    ts: Timestamp,
    id: Seq<u8>,
)
    requires
        keys_unique(obj),
    ensures
        obj_get(create_step(json, obj, actor, ts, id).1, "@id"@) == Val::Str(oid_render(id)),
        obj_get(create_step(json, obj, actor, ts, id).1, attributed_key()) == actor_ref_val(actor),
        obj_get(create_step(json, obj, actor, ts, id).1, updated_key()) == datetime_val(ts),
        obj_get(create_step(json, obj, actor, ts, id).1, published_key()) == datetime_val(ts),
{
    reveal_strlit("@id");
    reveal_strlit("https://www.w3.org/ns/activitystreams#attributedTo");
    reveal_strlit("https://www.w3.org/ns/activitystreams#published");
    reveal_strlit("https://www.w3.org/ns/activitystreams#updated");
    lemma_merge_fold_unique(json, obj, 5);
    let o1 = copy_recipients_spec(json, obj);
    assert(attributed_key().len() == 50);
    assert(published_key().len() == 47);
    assert(updated_key().len() == 45);
    assert("@id"@.len() == 3);
    lemma_obj_set_props(o1, attributed_key(), actor_ref_val(actor));
    let o2 = obj_set(o1, attributed_key(), actor_ref_val(actor));
    lemma_obj_set_props(o2, "@id"@, Val::Str(oid_render(id)));
    let o3 = obj_set(o2, "@id"@, Val::Str(oid_render(id)));
    lemma_obj_set_props(o3, published_key(), datetime_val(ts));
    let o4 = obj_set(o3, published_key(), datetime_val(ts));
    lemma_obj_set_props(o4, updated_key(), datetime_val(ts));
}

/// Process the embedded objects of a Create: each object merges recipients
/// with the activity both ways, takes the actor as `attributedTo`, a fresh
/// identity, and the request stamps, and the finalized objects replace the
/// activity's `object` clause. Success is owed exactly when `create_ready`
/// accepts every embedded object; a shape broken upstream surfaces as an
/// internal error and may leave the activity partially transformed.
#[verifier::loop_isolation(false)]
pub fn plan_create(
    activity: &mut DocObj,
    objs: &Vec<Doc>,
    actor: &ObjectId,
    ts: &Timestamp,
    fresh: &Vec<ObjectId>,
) -> (r: Result<Vec<PlanItem>, Error>)
    requires
        old(activity).wf(),
        actor.wf(),
        ts.wf(),
        forall|i: int| 0 <= i < objs@.len() ==> (#[trigger] objs@[i]).wf(),
        fresh@.len() >= objs@.len(),
        forall|i: int| 0 <= i < fresh@.len() ==> (#[trigger] fresh@[i]).wf(),
    ensures
        r is Ok <==> create_ready(
            old(activity)@,
            docs_view(objs@),
            actor.bytes@,
            *ts,
            fresh@,
            objs@.len() as int,
        ),
        match r {
            Ok(items) => {
                let fold = create_fold(
                    old(activity)@,
                    docs_view(objs@),
                    actor.bytes@,
                    *ts,
                    fresh@,
                    objs@.len() as int,
                );
                &&& items@.len() == objs@.len()
                &&& forall|i: int|
                    0 <= i < items@.len() ==> (#[trigger] items@[i]) is CreateObj && Val::Obj(
                        items@[i]->CreateObj_0@,
                    ) == fold.1[i]
                &&& forall|i: int| 0 <= i < items@.len() ==> #[trigger] docs_view(objs@)[i] is Obj
                &&& final(activity)@ == obj_set(fold.0, object_key(), Val::Arr(fold.1))
                &&& final(activity).wf()
                &&& forall|i: int| 0 <= i < items@.len() ==> (#[trigger] items@[i]).wf()
            },
            Err(e) => e == Error::Internal,
        },
{
    let ghost objsv = docs_view(objs@);
    let ghost ids = fresh@;
    let n = objs.len();
    let mut items: Vec<PlanItem> = Vec::new();
    let mut out_objs: Vec<Doc> = Vec::new();
    let mut i: usize = 0;
    while i < n
        invariant
            n == objs@.len(),
            i <= n,
            items@.len() == i,
            out_objs@.len() == i,
            activity.wf(),
            activity@ == create_fold(old(activity)@, objsv, actor.bytes@, *ts, ids, i as int).0,
            create_ready(old(activity)@, objsv, actor.bytes@, *ts, ids, i as int),
            forall|j: int|
                0 <= j < i ==> (#[trigger] items@[j]) is CreateObj && Val::Obj(
                    items@[j]->CreateObj_0@,
                ) == create_fold(old(activity)@, objsv, actor.bytes@, *ts, ids, i as int).1[j],
            forall|j: int| 0 <= j < i ==> (#[trigger] items@[j]).wf(),
            forall|j: int|
                0 <= j < i ==> #[trigger] out_objs@[j]@ == create_fold(
                    old(activity)@,
                    objsv,
                    actor.bytes@,
                    *ts,
                    ids,
                    i as int,
                ).1[j],
        decreases n - i,
    {
        proof {
            lemma_create_fold_prefix(old(activity)@, objsv, actor.bytes@, *ts, ids, i as int);
            lemma_create_fold_prefix(old(activity)@, objsv, actor.bytes@, *ts, ids, i + 1);
        }
        let src = match objs[i].as_obj() {
            Some(o) => o,
            None => {
                proof {
                    assert(objsv[i as int] == objs@[i as int]@);
                    assert(!create_ready(old(activity)@, objsv, actor.bytes@, *ts, ids, n as int))
                        by {
                        if create_ready(old(activity)@, objsv, actor.bytes@, *ts, ids, n as int) {
                            lemma_create_ready_mono(
                                old(activity)@,
                                objsv,
                                actor.bytes@,
                                *ts,
                                ids,
                                i + 1,
                                n as int,
                            );
                        }
                    }
                }
                return Err(Error::Internal);
            },
        };
        let mut work = src.deep_copy();
        proof {
            assert(objsv[i as int] == objs@[i as int]@);
            assert(work@ == objsv[i as int]->Obj_0);
            assert(val_wf(Val::Obj(work@)));
        }
        match copy_recipients(activity, &mut work) {
            Ok(()) => {},
            Err(_) => {
                proof {
                    assert(!create_ready(old(activity)@, objsv, actor.bytes@, *ts, ids, n as int))
                        by {
                        if create_ready(old(activity)@, objsv, actor.bytes@, *ts, ids, n as int) {
                            lemma_create_ready_mono(
                                old(activity)@,
                                objsv,
                                actor.bytes@,
                                *ts,
                                ids,
                                i + 1,
                                n as int,
                            );
                        }
                    }
                }
                return Err(Error::Internal);
            },
        }
        match copy_recipients(&work, activity) {
            Ok(()) => {},
            Err(_) => {
                proof {
                    assert(!create_ready(old(activity)@, objsv, actor.bytes@, *ts, ids, n as int))
                        by {
                        if create_ready(old(activity)@, objsv, actor.bytes@, *ts, ids, n as int) {
                            lemma_create_ready_mono(
                                old(activity)@,
                                objsv,
                                actor.bytes@,
                                *ts,
                                ids,
                                i + 1,
                                n as int,
                            );
                        }
                    }
                }
                return Err(Error::Internal);
            },
        }
        let aref = actor_ref(actor);
        proof {
            lemma_obj_wf_set_del(work@, attributed_key(), aref@);
        }
        work.insert(String::from_str("https://www.w3.org/ns/activitystreams#attributedTo"), aref);
        let fid = oid_hex(&fresh[i]);
        proof {
            lemma_oid_render_unique(fresh@[i as int].bytes@, fid@);
            lemma_obj_wf_set_del(work@, "@id"@, Val::Str(oid_render(fresh@[i as int].bytes@)));
        }
        work.insert(String::from_str("@id"), Doc::Str(fid));
        let dt1 = datetime(ts);
        proof {
            lemma_obj_wf_set_del(work@, published_key(), dt1@);
        }
        work.insert(String::from_str("https://www.w3.org/ns/activitystreams#published"), dt1);
        let dt2 = datetime(ts);
        proof {
            lemma_obj_wf_set_del(work@, updated_key(), dt2@);
        }
        work.insert(String::from_str("https://www.w3.org/ns/activitystreams#updated"), dt2);
        let copy_for_activity = work.deep_copy();
        proof {
            assert(work@ == create_step(
                create_fold(old(activity)@, objsv, actor.bytes@, *ts, ids, i as int).0,
                objsv[i as int]->Obj_0,
                actor.bytes@,
                *ts,
                ids[i as int].bytes@,
            ).1);
        }
        items.push(PlanItem::CreateObj(work));
        out_objs.push(Doc::Obj(copy_for_activity));
        i += 1;
        proof {
            assert(create_ready(old(activity)@, objsv, actor.bytes@, *ts, ids, i as int));
            assert forall|j: int|
                0 <= j < i implies (#[trigger] items@[j]) is CreateObj && Val::Obj(
                items@[j]->CreateObj_0@,
            ) == create_fold(old(activity)@, objsv, actor.bytes@, *ts, ids, i as int).1[j] by {
                lemma_create_fold_prefix(old(activity)@, objsv, actor.bytes@, *ts, ids, i as int);
                if j < i - 1 {
                    lemma_create_fold_prefix(
                        old(activity)@,
                        objsv,
                        actor.bytes@,
                        *ts,
                        ids,
                        i - 1,
                    );
                }
            }
            assert forall|j: int|
                0 <= j < i implies #[trigger] out_objs@[j]@ == create_fold(
                old(activity)@,
                objsv,
                actor.bytes@,
                *ts,
                ids,
                i as int,
            ).1[j] by {
                lemma_create_fold_prefix(old(activity)@, objsv, actor.bytes@, *ts, ids, i as int);
                if j < i - 1 {
                    lemma_create_fold_prefix(
                        old(activity)@,
                        objsv,
                        actor.bytes@,
                        *ts,
                        ids,
                        i - 1,
                    );
                }
            }
        }
    }
    let ghost fold = create_fold(old(activity)@, objsv, actor.bytes@, *ts, ids, n as int);
    proof {
        lemma_create_fold_prefix(old(activity)@, objsv, actor.bytes@, *ts, ids, n as int);
        assert(docs_view(out_objs@) =~= fold.1);
        assert forall|x: int| 0 <= x < docs_view(out_objs@).len() implies val_wf(
            #[trigger] docs_view(out_objs@)[x],
        ) by {
            assert(docs_view(out_objs@)[x] == out_objs@[x]@);
            assert(items@[x]->CreateObj_0.wf());
            assert(Val::Obj(items@[x]->CreateObj_0@) == fold.1[x]);
        }
        assert(val_wf(Val::Arr(docs_view(out_objs@))));
        lemma_obj_wf_set_del(activity@, object_key(), Val::Arr(docs_view(out_objs@)));
        assert forall|x: int| 0 <= x < items@.len() implies #[trigger] docs_view(objs@)[x]
            is Obj by {
            lemma_create_ready_mono(
                old(activity)@,
                objsv,
                actor.bytes@,
                *ts,
                ids,
                x + 1,
                n as int,
            );
        }
    }
    activity.insert(
        String::from_str("https://www.w3.org/ns/activitystreams#object"),
        Doc::Arr(out_objs),
    );
    Ok(items)
}


/// The activity's objects each stamped with the request `updated` instant.
pub open spec fn stamp_all(objs: Seq<Val>, ts: Timestamp) -> Seq<Val>
    decreases objs,
{
    if objs.len() == 0 {
        Seq::empty()
    } else {
        stamp_all(objs.drop_last(), ts).push(
            Val::Obj(obj_set(objs.last()->Obj_0, updated_key(), datetime_val(ts))),
        )
    }
}

/// `stamp_all` has the length of its argument and stamps pointwise.
pub proof fn lemma_stamp_all(objs: Seq<Val>, ts: Timestamp)
    ensures
        stamp_all(objs, ts).len() == objs.len(),
        forall|i: int|
            0 <= i < objs.len() ==> #[trigger] stamp_all(objs, ts)[i] == Val::Obj(
                obj_set(objs[i]->Obj_0, updated_key(), datetime_val(ts)),
            ),
    decreases objs.len(),
{
    if objs.len() > 0 {
        lemma_stamp_all(objs.drop_last(), ts);
    }
}

/// Plan an Update: each referenced object's current version is fetched (a
/// missing one rejects the request with `ObjectNotFound`), the submitted
/// patch takes the request `updated` stamp, and the activity keeps the
/// stamped patches. Success is owed exactly when `update_error_spec` finds
/// nothing to reject.
#[verifier::loop_isolation(false)]
pub fn plan_update(
    activity: &mut DocObj,
    host: &str,
    ts: &Timestamp,
    store: &crate::store::Store,
) -> (r: Result<Vec<PlanItem>, Error>)
    requires
        old(activity).wf(),
        ts.wf(),
        store.wf(),
    ensures
        r is Ok <==> update_error_spec(old(activity)@, host@, store@) is None,
        match r {
            Ok(items) => {
                let objsv = obj_get(old(activity)@, object_key())->Arr_0;
                &&& obj_has(old(activity)@, object_key())
                &&& obj_get(old(activity)@, object_key()) is Arr
                &&& items@.len() == objsv.len()
                &&& forall|i: int|
                    0 <= i < items@.len() ==> {
                        &&& (#[trigger] items@[i]) is UpdateMerge
                        &&& objsv[i] is Obj
                        &&& crate::store::latest_index(store@, ref_id_bytes(objsv[i]->Obj_0))
                            != -1
                        &&& items@[i]->UpdateMerge_0@ == crate::store::restore(
                            store@[crate::store::latest_index(
                                store@,
                                ref_id_bytes(objsv[i]->Obj_0),
                            )],
                        )
                        &&& items@[i]->UpdateMerge_1@ == obj_set(
                            objsv[i]->Obj_0,
                            updated_key(),
                            datetime_val(*ts),
                        )
                        &&& items@[i].wf()
                    }
                &&& final(activity)@ == obj_set(
                    old(activity)@,
                    object_key(),
                    Val::Arr(stamp_all(objsv, *ts)),
                )
                &&& final(activity).wf()
            },
            Err(e) => Some(e) == update_error_spec(old(activity)@, host@, store@)
                && *final(activity) == *old(activity),
        },
{
    let key = "https://www.w3.org/ns/activitystreams#object";
    let objs: &Vec<Doc> = match activity.get(key) {
        None => {
            return Err(Error::BadRequest(BadReason::InvalidObject));
        },
        Some(d) => match d.as_arr() {
            None => {
                return Err(Error::Internal);
            },
            Some(a) => a,
        },
    };
    proof {
        lemma_obj_get_wf(old(activity)@, object_key());
    }
    let ghost objsv = obj_get(old(activity)@, object_key())->Arr_0;
    let n = objs.len();
    proof {
        assert(objsv.subrange(0, n as int) =~= objsv);
    }
    let mut items: Vec<PlanItem> = Vec::new();
    let mut stamped: Vec<Doc> = Vec::new();
    let mut i: usize = 0;
    while i < n
        invariant
            n == objs@.len(),
            objsv.len() == n,
            i <= n,
            items@.len() == i,
            stamped@.len() == i,
            update_scan(objsv.subrange(i as int, n as int), host@, store@) == update_scan(
                objsv,
                host@,
                store@,
            ),
            forall|j: int|
                0 <= j < i ==> {
                    &&& (#[trigger] items@[j]) is UpdateMerge
                    &&& objsv[j] is Obj
                    &&& crate::store::latest_index(store@, ref_id_bytes(objsv[j]->Obj_0)) != -1
                    &&& items@[j]->UpdateMerge_0@ == crate::store::restore(
                        store@[crate::store::latest_index(store@, ref_id_bytes(objsv[j]->Obj_0))],
                    )
                    &&& items@[j]->UpdateMerge_1@ == obj_set(
                        objsv[j]->Obj_0,
                        updated_key(),
                        datetime_val(*ts),
                    )
                    &&& items@[j].wf()
                },
            forall|j: int|
                0 <= j < i ==> #[trigger] stamped@[j]@ == Val::Obj(
                    obj_set(objsv[j]->Obj_0, updated_key(), datetime_val(*ts)),
                ),
        decreases n - i,
    {
        proof {
            lemma_arr_elem_wf(objsv, i as int);
            assert(objsv[i as int] == objs@[i as int]@);
            assert(objsv.subrange(i as int, n as int)[0] == objsv[i as int]);
            assert(objsv.subrange(i as int, n as int).drop_first() =~= objsv.subrange(
                i + 1,
                n as int,
            ));
        }
        let src = match objs[i].as_obj() {
            Some(o) => o,
            None => {
                proof {
                    assert(ref_error(objsv[i as int], host@) == Some(Error::Internal));
                }
                return Err(Error::Internal);
            },
        };
        let id = match get_id(src, host) {
            Ok(id) => id,
            Err(e) => {
                proof {
                    assert(ref_error(objsv[i as int], host@) == Some(e));
                }
                return Err(e);
            },
        };
        let old_doc = match store.get(&id) {
            Some(d) => d,
            None => {
                proof {
                    assert(ref_error(objsv[i as int], host@) is None);
                    assert(update_ref_error(objsv[i as int], host@, store@) == Some(
                        Error::BadRequest(BadReason::ObjectNotFound),
                    ));
                }
                return Err(Error::BadRequest(BadReason::ObjectNotFound));
            },
        };
        proof {
            assert(ref_error(objsv[i as int], host@) is None);
            assert(update_ref_error(objsv[i as int], host@, store@) is None);
        }
        let mut st = src.deep_copy();
        let dt = datetime(ts);
        proof {
            lemma_obj_wf_set_del(st@, updated_key(), dt@);
        }
        st.insert(String::from_str("https://www.w3.org/ns/activitystreams#updated"), dt);
        let st2 = st.deep_copy();
        items.push(PlanItem::UpdateMerge(old_doc, st));
        stamped.push(Doc::Obj(st2));
        i += 1;
    }
    proof {
        lemma_stamp_all(objsv, *ts);
        assert(docs_view(stamped@) =~= stamp_all(objsv, *ts));
        assert forall|x: int| 0 <= x < docs_view(stamped@).len() implies val_wf(
            #[trigger] docs_view(stamped@)[x],
        ) by {
            assert(docs_view(stamped@)[x] == stamped@[x]@);
            assert(items@[x]->UpdateMerge_1.wf());
        }
        assert(val_wf(Val::Arr(docs_view(stamped@))));
        lemma_obj_wf_set_del(old(activity)@, object_key(), Val::Arr(docs_view(stamped@)));
    }
    activity.insert(
        String::from_str("https://www.w3.org/ns/activitystreams#object"),
        Doc::Arr(stamped),
    );
    Ok(items)
}

/// Plan a Delete: each referenced object's identity takes a tombstone
/// carrying only the sentinel type and the request stamps. Success is owed
/// exactly when `delete_error_spec` finds nothing to reject.
#[verifier::loop_isolation(false)]
pub fn plan_delete(activity: &DocObj, host: &str, ts: &Timestamp) -> (r: Result<
    Vec<PlanItem>,
    Error,
>)
    requires
        activity.wf(),
        ts.wf(),
    ensures
        r is Ok <==> delete_error_spec(activity@, host@) is None,
        match r {
            Ok(items) => {
                let objsv = obj_get(activity@, object_key())->Arr_0;
                &&& obj_has(activity@, object_key())
                &&& obj_get(activity@, object_key()) is Arr
                &&& items@.len() == objsv.len()
                &&& forall|i: int|
                    0 <= i < items@.len() ==> {
                        &&& (#[trigger] items@[i]) is Tombstone
                        &&& objsv[i] is Obj
                        &&& items@[i]->Tombstone_0@ == tombstone_spec(
                            ref_id_bytes(objsv[i]->Obj_0),
                            *ts,
                        )
                        &&& items@[i].wf()
                    }
            },
            Err(e) => Some(e) == delete_error_spec(activity@, host@),
        },
{
    let key = "https://www.w3.org/ns/activitystreams#object";
    let objs: &Vec<Doc> = match activity.get(key) {
        None => {
            return Err(Error::BadRequest(BadReason::InvalidObject));
        },
        Some(d) => match d.as_arr() {
            None => {
                return Err(Error::Internal);
            },
            Some(a) => a,
        },
    };
    proof {
        lemma_obj_get_wf(activity@, object_key());
    }
    let ghost objsv = obj_get(activity@, object_key())->Arr_0;
    let n = objs.len();
    proof {
        assert(objsv.subrange(0, n as int) =~= objsv);
    }
    let mut items: Vec<PlanItem> = Vec::new();
    let mut i: usize = 0;
    while i < n
        invariant
            n == objs@.len(),
            objsv.len() == n,
            i <= n,
            items@.len() == i,
            delete_scan(objsv.subrange(i as int, n as int), host@) == delete_scan(objsv, host@),
            forall|j: int|
                0 <= j < i ==> {
                    &&& (#[trigger] items@[j]) is Tombstone
                    &&& objsv[j] is Obj
                    &&& items@[j]->Tombstone_0@ == tombstone_spec(
                        ref_id_bytes(objsv[j]->Obj_0),
                        *ts,
                    )
                    &&& items@[j].wf()
                },
        decreases n - i,
    {
        proof {
            lemma_arr_elem_wf(objsv, i as int);
            assert(objsv[i as int] == objs@[i as int]@);
            assert(objsv.subrange(i as int, n as int)[0] == objsv[i as int]);
            assert(objsv.subrange(i as int, n as int).drop_first() =~= objsv.subrange(
                i + 1,
                n as int,
            ));
        }
        let src = match objs[i].as_obj() {
            Some(o) => o,
            None => {
                proof {
                    assert(ref_error(objsv[i as int], host@) == Some(Error::Internal));
                }
                return Err(Error::Internal);
            },
        };
        let id = match get_id(src, host) {
            Ok(id) => id,
            Err(e) => {
                proof {
                    assert(ref_error(objsv[i as int], host@) == Some(e));
                }
                return Err(e);
            },
        };
        proof {
            assert(ref_error(objsv[i as int], host@) is None);
        }
        let tomb = make_tombstone(&id, ts);
        items.push(PlanItem::Tombstone(tomb));
        i += 1;
    }
    Ok(items)
}

/// A collection's replacement version after an Add: every listed object
/// appended to its direct `items`, and the request `updated` stamp.
pub open spec fn add_version_spec(
    cur: Seq<(Seq<char>, Val)>,
    objsv: Seq<Val>,
    ts: Timestamp,
) -> Seq<(Seq<char>, Val)> {
    obj_set(
        obj_set(cur, items_key(), Val::Arr(obj_get(cur, items_key())->Arr_0 + objsv)),
        updated_key(),
        datetime_val(ts),
    )
}

/// A collection's replacement version after a Remove: at most one
/// structurally equal entry deleted from its direct `items` per listed
/// object, and the request `updated` stamp.
pub open spec fn remove_version_spec(
    cur: Seq<(Seq<char>, Val)>,
    objsv: Seq<Val>,
    ts: Timestamp,
) -> Seq<(Seq<char>, Val)> {
    obj_set(
        obj_set(
            cur,
            items_key(),
            Val::Arr(remove_items_spec(obj_get(cur, items_key())->Arr_0, objsv)),
        ),
        updated_key(),
        datetime_val(ts),
    )
}

/// Read the listed objects of the activity's `object` clause.
#[verifier::loop_isolation(false)]
fn read_objects(activity: &DocObj) -> (r: Result<Vec<Doc>, Error>)
    requires
        activity.wf(),
    ensures
        match r {
            Ok(objs) => obj_has(activity@, object_key()) && obj_get(activity@, object_key())
                is Arr && docs_view(objs@) == obj_get(activity@, object_key())->Arr_0 && (forall|
                i: int,
            |
                0 <= i < objs@.len() ==> (#[trigger] objs@[i]).wf()),
            Err(e) => {
                &&& (e == Error::BadRequest(BadReason::InvalidObject) || e == Error::Internal)
                &&& (e == Error::BadRequest(BadReason::InvalidObject) <==> !obj_has(
                    activity@,
                    object_key(),
                ))
                &&& (e == Error::Internal <==> obj_has(activity@, object_key()) && !(obj_get(
                    activity@,
                    object_key(),
                ) is Arr))
            },
        },
{
    let key = "https://www.w3.org/ns/activitystreams#object";
    let objs: &Vec<Doc> = match activity.get(key) {
        None => {
            return Err(Error::BadRequest(BadReason::InvalidObject));
        },
        Some(d) => match d.as_arr() {
            None => {
                return Err(Error::Internal);
            },
            Some(a) => a,
        },
    };
    proof {
        lemma_obj_get_wf(activity@, object_key());
    }
    let ghost objsv = obj_get(activity@, object_key())->Arr_0;
    let n = objs.len();
    let mut out: Vec<Doc> = Vec::new();
    let mut i: usize = 0;
    while i < n
        invariant
            n == objs@.len(),
            i <= n,
            out@.len() == i,
            forall|j: int| 0 <= j < i ==> #[trigger] out@[j]@ == objs@[j]@,
            forall|j: int| 0 <= j < i ==> (#[trigger] out@[j]).wf(),
        decreases n - i,
    {
        proof {
            lemma_arr_elem_wf(objsv, i as int);
            assert(objsv[i as int] == objs@[i as int]@);
        }
        let c = objs[i].deep_copy();
        out.push(c);
        i += 1;
    }
    proof {
        assert(docs_view(out@) =~= objsv);
    }
    Ok(out)
}

/// Plan an Add: each resolved target must be a current collection with a
/// direct `items` array (else the request is rejected with
/// `NotACollection` or `NoItems`); the listed objects are appended and the
/// target takes the request stamp as a new version. Success is owed
/// exactly when `add_error_spec` finds nothing to reject.
#[verifier::loop_isolation(false)]
pub fn plan_add(
    activity: &DocObj,
    host: &str,
    ts: &Timestamp,
    store: &crate::store::Store,
) -> (r: Result<Vec<PlanItem>, Error>)
    requires
        activity.wf(),
        ts.wf(),
        store.wf(),
    ensures
        r is Ok <==> add_error_spec(activity@, host@, store@) is None,
        match r {
            Ok(items) => {
                let tgtv = obj_get(activity@, target_key())->Arr_0;
                let objsv = obj_get(activity@, object_key())->Arr_0;
                &&& obj_has(activity@, target_key())
                &&& obj_get(activity@, target_key()) is Arr
                &&& obj_has(activity@, object_key())
                &&& obj_get(activity@, object_key()) is Arr
                &&& items@.len() == tgtv.len()
                &&& forall|i: int|
                    0 <= i < items@.len() ==> {
                        &&& (#[trigger] items@[i]) is NewVersion
                        &&& tgtv[i] is Obj
                        &&& crate::store::latest_index(store@, ref_id_bytes(tgtv[i]->Obj_0)) != -1
                        &&& items@[i]->NewVersion_0@ == add_version_spec(
                            crate::store::restore(
                                store@[crate::store::latest_index(
                                    store@,
                                    ref_id_bytes(tgtv[i]->Obj_0),
                                )],
                            ),
                            objsv,
                            *ts,
                        )
                        &&& items@[i].wf()
                    }
            },
            Err(e) => Some(e) == add_error_spec(activity@, host@, store@),
        },
{
    let objects = match read_objects(activity) {
        Ok(o) => o,
        Err(e) => {
            return Err(e);
        },
    };
    let tkey = "https://www.w3.org/ns/activitystreams#target";
    let targets: &Vec<Doc> = match activity.get(tkey) {
        None => {
            return Err(Error::BadRequest(BadReason::InvalidTarget));
        },
        Some(d) => match d.as_arr() {
            None => {
                return Err(Error::Internal);
            },
            Some(a) => a,
        },
    };
    proof {
        lemma_obj_get_wf(activity@, target_key());
    }
    let ghost tgtv = obj_get(activity@, target_key())->Arr_0;
    let ghost objsv = obj_get(activity@, object_key())->Arr_0;
    let n = targets.len();
    proof {
        assert(tgtv.subrange(0, n as int) =~= tgtv);
    }
    let mut items: Vec<PlanItem> = Vec::new();
    let mut i: usize = 0;
    while i < n
        invariant
            n == targets@.len(),
            tgtv.len() == n,
            i <= n,
            items@.len() == i,
            targets_scan(tgtv.subrange(i as int, n as int), host@, store@, false) == targets_scan(
                tgtv,
                host@,
                store@,
                false,
            ),
            docs_view(objects@) == objsv,
            forall|x: int| 0 <= x < objects@.len() ==> (#[trigger] objects@[x]).wf(),
            forall|j: int|
                0 <= j < i ==> {
                    &&& (#[trigger] items@[j]) is NewVersion
                    &&& tgtv[j] is Obj
                    &&& crate::store::latest_index(store@, ref_id_bytes(tgtv[j]->Obj_0)) != -1
                    &&& items@[j]->NewVersion_0@ == add_version_spec(
                        crate::store::restore(
                            store@[crate::store::latest_index(
                                store@,
                                ref_id_bytes(tgtv[j]->Obj_0),
                            )],
                        ),
                        objsv,
                        *ts,
                    )
                    &&& items@[j].wf()
                },
        decreases n - i,
    {
        proof {
            lemma_arr_elem_wf(tgtv, i as int);
            assert(tgtv[i as int] == targets@[i as int]@);
            assert(tgtv.subrange(i as int, n as int)[0] == tgtv[i as int]);
            assert(tgtv.subrange(i as int, n as int).drop_first() =~= tgtv.subrange(
                i + 1,
                n as int,
            ));
        }
        let tref = match targets[i].as_obj() {
            Some(o) => o,
            None => {
                proof {
                    assert(ref_error(tgtv[i as int], host@) == Some(Error::Internal));
                }
                return Err(Error::Internal);
            },
        };
        let id = match get_id(tref, host) {
            Ok(id) => id,
            Err(e) => {
                proof {
                    assert(ref_error(tgtv[i as int], host@) == Some(e));
                }
                return Err(e);
            },
        };
        proof {
            assert(ref_error(tgtv[i as int], host@) is None);
        }
        let mut cur = match store.get(&id) {
            Some(d) => d,
            None => {
                proof {
                    assert(target_error(tgtv[i as int], host@, store@, false) == Some(
                        Error::BadRequest(BadReason::TargetNotFound),
                    ));
                }
                return Err(Error::BadRequest(BadReason::TargetNotFound));
            },
        };
        let ghost curv = cur@;
        let coll = match is_collection(&cur) {
            Ok(b) => b,
            Err(e) => {
                proof {
                    assert(collection_error(curv, false) == Some(e));
                }
                return Err(e);
            },
        };
        if !coll {
            proof {
                assert(collection_error(curv, false) == Some(
                    Error::BadRequest(BadReason::NotACollection),
                ));
            }
            return Err(Error::BadRequest(BadReason::NotACollection));
        }
        match add_items(&mut cur, &objects) {
            Ok(()) => {},
            Err(e) => {
                proof {
                    assert(collection_error(curv, false) == Some(e));
                }
                return Err(e);
            },
        }
        proof {
            assert(collection_error(curv, false) is None);
            assert(target_error(tgtv[i as int], host@, store@, false) is None);
        }
        let dt = datetime(ts);
        proof {
            lemma_obj_wf_set_del(cur@, updated_key(), dt@);
        }
        cur.insert(String::from_str("https://www.w3.org/ns/activitystreams#updated"), dt);
        items.push(PlanItem::NewVersion(cur));
        i += 1;
    }
    Ok(items)
}

/// Plan a Remove: each resolved origin (falling back to the target when no
/// origin is listed) must be a current collection with a direct `items`
/// array (else the request is rejected with `OriginNotACollection` or
/// `NoItems`); at most one structurally equal entry per listed object
/// leaves it, and the origin takes the request stamp as a new version.
/// Success is owed exactly when `remove_error_spec` finds nothing to
/// reject.
#[verifier::loop_isolation(false)]
pub fn plan_remove(
    activity: &DocObj,
    host: &str,
    ts: &Timestamp,
    store: &crate::store::Store,
) -> (r: Result<Vec<PlanItem>, Error>)
    requires
        activity.wf(),
        ts.wf(),
        store.wf(),
    ensures
        r is Ok <==> remove_error_spec(activity@, host@, store@) is None,
        match r {
            Ok(items) => {
                let okey = if obj_has(activity@, origin_key()) {
                    origin_key()
                } else {
                    target_key()
                };
                let refv = obj_get(activity@, okey)->Arr_0;
                let objsv = obj_get(activity@, object_key())->Arr_0;
                &&& obj_has(activity@, okey)
                &&& obj_get(activity@, okey) is Arr
                &&& obj_has(activity@, object_key())
                &&& obj_get(activity@, object_key()) is Arr
                &&& items@.len() == refv.len()
                &&& forall|i: int|
                    0 <= i < items@.len() ==> {
                        &&& (#[trigger] items@[i]) is NewVersion
                        &&& refv[i] is Obj
                        &&& crate::store::latest_index(store@, ref_id_bytes(refv[i]->Obj_0)) != -1
                        &&& items@[i]->NewVersion_0@ == remove_version_spec(
                            crate::store::restore(
                                store@[crate::store::latest_index(
                                    store@,
                                    ref_id_bytes(refv[i]->Obj_0),
                                )],
                            ),
                            objsv,
                            *ts,
                        )
                        &&& items@[i].wf()
                    }
            },
            Err(e) => Some(e) == remove_error_spec(activity@, host@, store@),
        },
{
    let objects = match read_objects(activity) {
        Ok(o) => o,
        Err(e) => {
            return Err(e);
        },
    };
    let okey_str = "https://www.w3.org/ns/activitystreams#origin";
    let tkey_str = "https://www.w3.org/ns/activitystreams#target";
    let use_origin = activity.contains_key(okey_str);
    let refs: &Vec<Doc> = if use_origin {
        match activity.get(okey_str) {
            Some(d) => match d.as_arr() {
                None => {
                    return Err(Error::Internal);
                },
                Some(a) => a,
            },
            None => {
                return Err(Error::Internal);
            },
        }
    } else {
        match activity.get(tkey_str) {
            None => {
                return Err(Error::BadRequest(BadReason::InvalidOrigin));
            },
            Some(d) => match d.as_arr() {
                None => {
                    return Err(Error::Internal);
                },
                Some(a) => a,
            },
        }
    };
    let ghost okey = if obj_has(activity@, origin_key()) {
        origin_key()
    } else {
        target_key()
    };
    proof {
        lemma_obj_get_wf(activity@, okey);
    }
    let ghost refv = obj_get(activity@, okey)->Arr_0;
    let ghost objsv = obj_get(activity@, object_key())->Arr_0;
    let n = refs.len();
    proof {
        assert(refv.subrange(0, n as int) =~= refv);
    }
    let mut items: Vec<PlanItem> = Vec::new();
    let mut i: usize = 0;
    while i < n
        invariant
            n == refs@.len(),
            refv.len() == n,
            i <= n,
            items@.len() == i,
            targets_scan(refv.subrange(i as int, n as int), host@, store@, true) == targets_scan(
                refv,
                host@,
                store@,
                true,
            ),
            docs_view(objects@) == objsv,
            forall|x: int| 0 <= x < objects@.len() ==> (#[trigger] objects@[x]).wf(),
            forall|j: int|
                0 <= j < i ==> {
                    &&& (#[trigger] items@[j]) is NewVersion
                    &&& refv[j] is Obj
                    &&& crate::store::latest_index(store@, ref_id_bytes(refv[j]->Obj_0)) != -1
                    &&& items@[j]->NewVersion_0@ == remove_version_spec(
                        crate::store::restore(
                            store@[crate::store::latest_index(
                                store@,
                                ref_id_bytes(refv[j]->Obj_0),
                            )],
                        ),
                        objsv,
                        *ts,
                    )
                    &&& items@[j].wf()
                },
        decreases n - i,
    {
        proof {
            lemma_arr_elem_wf(refv, i as int);
            assert(refv[i as int] == refs@[i as int]@);
            assert(refv.subrange(i as int, n as int)[0] == refv[i as int]);
            assert(refv.subrange(i as int, n as int).drop_first() =~= refv.subrange(
                i + 1,
                n as int,
            ));
        }
        let oref = match refs[i].as_obj() {
            Some(o) => o,
            None => {
                proof {
                    assert(ref_error(refv[i as int], host@) == Some(Error::Internal));
                }
                return Err(Error::Internal);
            },
        };
        let id = match get_id(oref, host) {
            Ok(id) => id,
            Err(e) => {
                proof {
                    assert(ref_error(refv[i as int], host@) == Some(e));
                }
                return Err(e);
            },
        };
        proof {
            assert(ref_error(refv[i as int], host@) is None);
        }
        let mut cur = match store.get(&id) {
            Some(d) => d,
            None => {
                proof {
                    assert(target_error(refv[i as int], host@, store@, true) == Some(
                        Error::BadRequest(BadReason::OriginNotFound),
                    ));
                }
                return Err(Error::BadRequest(BadReason::OriginNotFound));
            },
        };
        let ghost curv = cur@;
        let coll = match is_collection(&cur) {
            Ok(b) => b,
            Err(e) => {
                proof {
                    assert(collection_error(curv, true) == Some(e));
                }
                return Err(e);
            },
        };
        if !coll {
            proof {
                assert(collection_error(curv, true) == Some(
                    Error::BadRequest(BadReason::OriginNotACollection),
                ));
            }
            return Err(Error::BadRequest(BadReason::OriginNotACollection));
        }
        match remove_items(&mut cur, &objects) {
            Ok(()) => {},
            Err(e) => {
                proof {
                    assert(collection_error(curv, true) == Some(e));
                }
                return Err(e);
            },
        }
        proof {
            assert(collection_error(curv, true) is None);
            assert(target_error(refv[i as int], host@, store@, true) is None);
        }
        let dt = datetime(ts);
        proof {
            lemma_obj_wf_set_del(cur@, updated_key(), dt@);
        }
        cur.insert(String::from_str("https://www.w3.org/ns/activitystreams#updated"), dt);
        items.push(PlanItem::NewVersion(cur));
        i += 1;
    }
    Ok(items)
}


/// How many fresh identities a submitted activity needs for its embedded
/// objects (the activity's own identity comes separately).
pub open spec fn embedded_count(json: Seq<(Seq<char>, Val)>) -> int {
    if obj_has(json, object_key()) && obj_get(json, object_key()) is Arr {
        obj_get(json, object_key())->Arr_0.len() as int
    } else {
        0
    }
}

/// What a successful plan holds, verb by verb.
pub open spec fn plan_post(
    plan: Plan,
    json: Seq<(Seq<char>, Val)>,
    actor: Seq<u8>,
    ts: Timestamp,
    ids: Seq<ObjectId>,
    store: Seq<crate::store::RowModel>,
) -> bool {
    match plan.verb {
        Verb::Create => {
            let base = obj_del(json, object_key());
            let objsv = obj_get(json, object_key())->Arr_0;
            let fold = create_fold(base, objsv, actor, ts, ids, objsv.len() as int);
            &&& obj_has(json, object_key())
            &&& obj_get(json, object_key()) is Arr
            &&& plan.items@.len() == objsv.len()
            &&& forall|i: int|
                0 <= i < plan.items@.len() ==> (#[trigger] plan.items@[i]) is CreateObj
                    && Val::Obj(plan.items@[i]->CreateObj_0@) == fold.1[i]
            &&& forall|i: int| 0 <= i < plan.items@.len() ==> (#[trigger] objsv[i]) is Obj
            &&& plan.activity@ == obj_set(fold.0, object_key(), Val::Arr(fold.1))
        },
        Verb::Update => {
            let objsv = obj_get(json, object_key())->Arr_0;
            &&& obj_has(json, object_key())
            &&& obj_get(json, object_key()) is Arr
            &&& plan.items@.len() == objsv.len()
            &&& forall|i: int|
                0 <= i < plan.items@.len() ==> {
                    &&& (#[trigger] plan.items@[i]) is UpdateMerge
                    &&& objsv[i] is Obj
                    &&& crate::store::latest_index(store, ref_id_bytes(objsv[i]->Obj_0)) != -1
                    &&& plan.items@[i]->UpdateMerge_0@ == crate::store::restore(
                        store[crate::store::latest_index(store, ref_id_bytes(objsv[i]->Obj_0))],
                    )
                    &&& plan.items@[i]->UpdateMerge_1@ == obj_set(
                        objsv[i]->Obj_0,
                        updated_key(),
                        datetime_val(ts),
                    )
                }
            &&& plan.activity@ == obj_set(json, object_key(), Val::Arr(stamp_all(objsv, ts)))
        },
        Verb::Delete => {
            let objsv = obj_get(json, object_key())->Arr_0;
            &&& obj_has(json, object_key())
            &&& obj_get(json, object_key()) is Arr
            &&& plan.items@.len() == objsv.len()
            &&& forall|i: int|
                0 <= i < plan.items@.len() ==> (#[trigger] plan.items@[i]) is Tombstone && objsv[i]
                    is Obj && plan.items@[i]->Tombstone_0@ == tombstone_spec(
                    ref_id_bytes(objsv[i]->Obj_0),
                    ts,
                )
            &&& plan.activity@ == json
        },
        Verb::Follow => plan.items@.len() == 0 && plan.activity@ == json,
        Verb::Add => {
            let tgtv = obj_get(json, target_key())->Arr_0;
            let objsv = obj_get(json, object_key())->Arr_0;
            &&& obj_has(json, target_key())
            &&& obj_get(json, target_key()) is Arr
            &&& obj_has(json, object_key())
            &&& obj_get(json, object_key()) is Arr
            &&& plan.items@.len() == tgtv.len()
            &&& forall|i: int|
                0 <= i < plan.items@.len() ==> {
                    &&& (#[trigger] plan.items@[i]) is NewVersion
                    &&& tgtv[i] is Obj
                    &&& crate::store::latest_index(store, ref_id_bytes(tgtv[i]->Obj_0)) != -1
                    &&& plan.items@[i]->NewVersion_0@ == add_version_spec(
                        crate::store::restore(
                            store[crate::store::latest_index(store, ref_id_bytes(tgtv[i]->Obj_0))],
                        ),
                        objsv,
                        ts,
                    )
                }
            &&& plan.activity@ == json
        },
        Verb::Remove => {
            let okey = if obj_has(json, origin_key()) {
                origin_key()
            } else {
                target_key()
            };
            let refv = obj_get(json, okey)->Arr_0;
            let objsv = obj_get(json, object_key())->Arr_0;
            &&& obj_has(json, okey)
            &&& obj_get(json, okey) is Arr
            &&& obj_has(json, object_key())
            &&& obj_get(json, object_key()) is Arr
            &&& plan.items@.len() == refv.len()
            &&& forall|i: int|
                0 <= i < plan.items@.len() ==> {
                    &&& (#[trigger] plan.items@[i]) is NewVersion
                    &&& refv[i] is Obj
                    &&& crate::store::latest_index(store, ref_id_bytes(refv[i]->Obj_0)) != -1
                    &&& plan.items@[i]->NewVersion_0@ == remove_version_spec(
                        crate::store::restore(
                            store[crate::store::latest_index(store, ref_id_bytes(refv[i]->Obj_0))],
                        ),
                        objsv,
                        ts,
                    )
                }
            &&& plan.activity@ == json
        },
        _ => false,
    }
}

/// The outcome a submission owes: the first rejection found, reading the
/// verb first and then walking the verb's own checks, or nothing when the
/// request is in order and a plan is due.
pub open spec fn submit_error_spec(
    json: Seq<(Seq<char>, Val)>,
    actor: Seq<u8>,
    ts: Timestamp,
    ids: Seq<ObjectId>,
    host: Seq<char>,
    store: Seq<crate::store::RowModel>,
) -> Option<Error> {
    if !obj_has(json, "@type"@) {
        Some(Error::BadRequest(BadReason::MissingType))
    } else if !(obj_get(json, "@type"@) is Arr) {
        Some(Error::Internal)
    } else {
        match first_verb(obj_get(json, "@type"@)->Arr_0) {
            None => Some(Error::BadRequest(BadReason::UnknownType)),
            Some(v) => match v {
                Verb::Create => {
                    if !obj_has(json, object_key()) {
                        Some(Error::BadRequest(BadReason::InvalidObject))
                    } else if !(obj_get(json, object_key()) is Arr) {
                        Some(Error::Internal)
                    } else if !create_ready(
                        obj_del(json, object_key()),
                        obj_get(json, object_key())->Arr_0,
                        actor,
                        ts,
                        ids,
                        obj_get(json, object_key())->Arr_0.len() as int,
                    ) {
                        Some(Error::Internal)
                    } else {
                        None
                    }
                },
                Verb::Update => update_error_spec(json, host, store),
                Verb::Delete => delete_error_spec(json, host),
                Verb::Follow => None,
                Verb::Add => add_error_spec(json, host, store),
                Verb::Remove => remove_error_spec(json, host, store),
                Verb::Like => Some(Error::Unimplemented),
                Verb::Block => Some(Error::Unimplemented),
                Verb::Undo => Some(Error::Unimplemented),
            },
        }
    }
}

/// Interpret a submitted, already expanded activity: read its verb, perform
/// the verb's reads and checks against the store, and produce the deferred
/// effects together with the transformed activity. One timestamp stamps the
/// whole request, and one fresh identity serves each embedded object.
/// Success is owed exactly when `submit_error_spec` finds nothing to
/// reject.
pub fn submit_plan(
    json: &DocObj,
    actor: &ObjectId,
    ts: &Timestamp,
    fresh: &Vec<ObjectId>,
    host: &str,
    store: &crate::store::Store,
) -> (r: Result<Plan, Error>)
    requires
        json.wf(),
        actor.wf(),
        ts.wf(),
        store.wf(),
        fresh@.len() >= embedded_count(json@),
        forall|i: int| 0 <= i < fresh@.len() ==> (#[trigger] fresh@[i]).wf(),
    ensures
        r is Ok <==> submit_error_spec(json@, actor.bytes@, *ts, fresh@, host@, store@) is None,
        match r {
            Ok(plan) => plan.wf() && obj_has(json@, "@type"@) && obj_get(json@, "@type"@) is Arr
                && first_verb(obj_get(json@, "@type"@)->Arr_0) == Some(plan.verb) && plan_post(
                plan,
                json@,
                actor.bytes@,
                *ts,
                fresh@,
                store@,
            ),
            Err(e) => Some(e) == submit_error_spec(json@, actor.bytes@, *ts, fresh@, host@, store@),
        },
{
    let verb = match parse_verb(json) {
        Ok(v) => v,
        Err(e) => {
            return Err(e);
        },
    };
    let mut activity = json.deep_copy();
    proof {
        assert(activity.wf());
    }
    match verb {
        Verb::Create => {
            proof {
                lemma_obj_wf_set_del(json@, object_key(), Val::Null);
            }
            let taken = match activity.remove("https://www.w3.org/ns/activitystreams#object") {
                None => {
                    return Err(Error::BadRequest(BadReason::InvalidObject));
                },
                Some(d) => d,
            };
            proof {
                lemma_obj_get_wf(json@, object_key());
            }
            let objs: Vec<Doc> = match taken {
                Doc::Arr(a) => a,
                _ => {
                    return Err(Error::Internal);
                },
            };
            proof {
                assert(docs_view(objs@) == obj_get(json@, object_key())->Arr_0);
                assert forall|i: int| 0 <= i < objs@.len() implies (#[trigger] objs@[i]).wf() by {
                    lemma_arr_elem_wf(docs_view(objs@), i);
                    assert(docs_view(objs@)[i] == objs@[i]@);
                }
            }
            let items = match plan_create(&mut activity, &objs, actor, ts, fresh) {
                Ok(it) => it,
                Err(e) => {
                    return Err(e);
                },
            };
            Ok(Plan { verb, activity, items })
        },
        Verb::Update => {
            let items = match plan_update(&mut activity, host, ts, store) {
                Ok(it) => it,
                Err(e) => {
                    return Err(e);
                },
            };
            Ok(Plan { verb, activity, items })
        },
        Verb::Delete => {
            let items = match plan_delete(&activity, host, ts) {
                Ok(it) => it,
                Err(e) => {
                    return Err(e);
                },
            };
            Ok(Plan { verb, activity, items })
        },
        Verb::Follow => {
            Ok(Plan { verb, activity, items: Vec::new() })
        },
        Verb::Add => {
            let items = match plan_add(&activity, host, ts, store) {
                Ok(it) => it,
                Err(e) => {
                    return Err(e);
                },
            };
            Ok(Plan { verb, activity, items })
        },
        Verb::Remove => {
            let items = match plan_remove(&activity, host, ts, store) {
                Ok(it) => it,
                Err(e) => {
                    return Err(e);
                },
            };
            Ok(Plan { verb, activity, items })
        },
        Verb::Like => Err(Error::Unimplemented),
        Verb::Block => Err(Error::Unimplemented),
        Verb::Undo => Err(Error::Unimplemented),
    }
}

/// The row one committed effect writes: the stripped document itself, or,
/// for an update, the patch merged over the fetched current version.
pub open spec fn commit_row(item: PlanItem, s: Seq<(Seq<char>, Val)>) -> crate::store::RowModel {
    match item {
        PlanItem::UpdateMerge(old_doc, _) => crate::store::row_of_doc(
            merge_patch_spec(old_doc@, s),
        ),
        _ => crate::store::row_of_doc(s),
    }
}

/// Whether one committed effect's document can be keyed for storage.
pub open spec fn commit_doc_ok(item: PlanItem, s: Seq<(Seq<char>, Val)>) -> bool {
    match item {
        PlanItem::UpdateMerge(old_doc, _) => crate::store::doc_keyable(
            merge_patch_spec(old_doc@, s),
        ),
        _ => crate::store::doc_keyable(s),
    }
}

/// The activity document a commit finishes with: for an Update the merged
/// versions substitute the `object` clause; then the request stamps, the
/// activity's own fresh identity, and the actor reference are attached.
pub open spec fn commit_activity_spec(
    plan: Plan,
    stripped: Seq<DocObj>,
    aid: Seq<u8>,
    actor: Seq<u8>,
    ts: Timestamp,
) -> Seq<(Seq<char>, Val)> {
    let substituted = if plan.verb == Verb::Update {
        obj_set(plan.activity@, object_key(), Val::Arr(merged_objs(plan.items@, stripped)))
    } else {
        plan.activity@
    };
    obj_set(
        obj_set(
            obj_set(
                obj_set(substituted, published_key(), datetime_val(ts)),
                updated_key(),
                datetime_val(ts),
            ),
            "@id"@,
            Val::Str(oid_render(aid)),
        ),
        actor_key(),
        actor_ref_val(actor),
    )
}

/// The merged documents an Update substitutes into the `object` clause.
pub open spec fn merged_objs(items: Seq<PlanItem>, stripped: Seq<DocObj>) -> Seq<Val>
    decreases items,
{
    if items.len() == 0 {
        Seq::empty()
    } else {
        merged_objs(items.drop_last(), stripped.drop_last()).push(
            Val::Obj(
                merge_patch_spec(items.last()->UpdateMerge_0@, stripped.last()@),
            ),
        )
    }
}

/// `merged_objs` has the length of its arguments and merges pointwise.
pub proof fn lemma_merged_objs(items: Seq<PlanItem>, stripped: Seq<DocObj>)
    requires
        items.len() == stripped.len(),
    ensures
        merged_objs(items, stripped).len() == items.len(),
        forall|i: int|
            0 <= i < items.len() ==> #[trigger] merged_objs(items, stripped)[i] == Val::Obj(
                merge_patch_spec(items[i]->UpdateMerge_0@, stripped[i]@),
            ),
    decreases items.len(),
{
    if items.len() > 0 {
        lemma_merged_objs(items.drop_last(), stripped.drop_last());
    }
}

/// Commit a plan whose effects came back from compaction: write each one
/// through the store in order, substitute an Update's merged versions into
/// the activity, and finish the activity with the request stamps, its fresh
/// identity, and the actor. A failing write stops the commit; earlier writes
/// stay durable — there is no rollback.
#[verifier::loop_isolation(false)]
#[verifier::rlimit(100)]
pub fn submit_commit(
    plan: &Plan,
    stripped: &Vec<DocObj>,
    activity_id: &ObjectId,
    actor: &ObjectId,
    ts: &Timestamp,
    store: &mut crate::store::Store,
) -> (r: Result<DocObj, Error>)
    requires
        plan.wf(),
        plan.verb == Verb::Update ==> forall|i: int|
            0 <= i < plan.items@.len() ==> (#[trigger] plan.items@[i]) is UpdateMerge,
        stripped@.len() == plan.items@.len(),
        forall|i: int| 0 <= i < stripped@.len() ==> (#[trigger] stripped@[i]).wf(),
        activity_id.wf(),
        actor.wf(),
        ts.wf(),
        old(store).wf(),
    ensures
        final(store).wf(),
        r is Ok <==> (forall|i: int|
            0 <= i < plan.items@.len() ==> commit_doc_ok(#[trigger] plan.items@[i], stripped@[i]@)),
        match r {
            Ok(act) => {
                &&& final(store)@.len() == old(store)@.len() + plan.items@.len()
                &&& final(store)@.subrange(0, old(store)@.len() as int) == old(store)@
                &&& forall|i: int|
                    0 <= i < plan.items@.len() ==> final(store)@[old(store)@.len() + i]
                        == commit_row(#[trigger] plan.items@[i], stripped@[i]@)
                &&& act@ == commit_activity_spec(
                    *plan,
                    stripped@,
                    activity_id.bytes@,
                    actor.bytes@,
                    *ts,
                )
                &&& act.wf()
            },
            Err(e) => e == Error::Internal && final(store)@.len() <= old(store)@.len()
                + plan.items@.len() && final(store)@.subrange(0, old(store)@.len() as int) == old(
                store,
            )@,
        },
{
    let n = plan.items.len();
    let mut merged: Vec<Doc> = Vec::new();
    let mut i: usize = 0;
    while i < n
        invariant
            n == plan.items@.len(),
            i <= n,
            store.wf(),
            store@.len() == old(store)@.len() + i,
            store@.subrange(0, old(store)@.len() as int) == old(store)@,
            forall|j: int|
                0 <= j < i ==> commit_doc_ok(#[trigger] plan.items@[j], stripped@[j]@),
            forall|j: int|
                0 <= j < i ==> store@[old(store)@.len() + j] == commit_row(
                    #[trigger] plan.items@[j],
                    stripped@[j]@,
                ),
            merged@.len() == count_updates(plan.items@.subrange(0, i as int)),
            plan.verb == Verb::Update ==> merged@.len() == i && docs_view(merged@) == merged_objs(
                plan.items@.subrange(0, i as int),
                stripped@.subrange(0, i as int),
            ) && (forall|j: int| 0 <= j < i ==> (#[trigger] plan.items@[j]) is UpdateMerge)
                && (forall|j: int| 0 <= j < i ==> (#[trigger] merged@[j]).wf()),
        decreases n - i,
    {
        let ghost pre = store@;
        match &plan.items[i] {
            PlanItem::UpdateMerge(old_doc, _) => {
                let mut m = old_doc.deep_copy();
                merge_patch(&mut m, &stripped[i]);
                match store.put(&m) {
                    Ok(()) => {},
                    Err(e) => {
                        proof {
                            assert(store@.subrange(0, old(store)@.len() as int) =~= old(store)@);
                            assert(!commit_doc_ok(plan.items@[i as int], stripped@[i as int]@));
                        }
                        return Err(e);
                    },
                }
                proof {
                    assert(store@.subrange(0, old(store)@.len() as int) =~= old(store)@);
                    assert(store@.drop_last() == pre);
                    assert forall|j: int|
                        0 <= j < i implies store@[old(store)@.len() + j] == commit_row(
                        #[trigger] plan.items@[j],
                        stripped@[j]@,
                    ) by {
                        assert(store@[old(store)@.len() + j] == pre[old(store)@.len() + j]);
                    }
                }
                merged.push(Doc::Obj(m));
            },
            PlanItem::CreateObj(d) => {
                match store.put(&stripped[i]) {
                    Ok(()) => {},
                    Err(e) => {
                        proof {
                            assert(store@.subrange(0, old(store)@.len() as int) =~= old(store)@);
                            assert(!commit_doc_ok(plan.items@[i as int], stripped@[i as int]@));
                        }
                        return Err(e);
                    },
                }
                proof {
                    assert(store@.subrange(0, old(store)@.len() as int) =~= old(store)@);
                    assert forall|j: int|
                        0 <= j < i implies store@[old(store)@.len() + j] == commit_row(
                        #[trigger] plan.items@[j],
                        stripped@[j]@,
                    ) by {
                        assert(store@[old(store)@.len() + j] == pre[old(store)@.len() + j]);
                    }
                }
            },
            PlanItem::Tombstone(d) => {
                match store.put(&stripped[i]) {
                    Ok(()) => {},
                    Err(e) => {
                        proof {
                            assert(store@.subrange(0, old(store)@.len() as int) =~= old(store)@);
                            assert(!commit_doc_ok(plan.items@[i as int], stripped@[i as int]@));
                        }
                        return Err(e);
                    },
                }
                proof {
                    assert(store@.subrange(0, old(store)@.len() as int) =~= old(store)@);
                    assert forall|j: int|
                        0 <= j < i implies store@[old(store)@.len() + j] == commit_row(
                        #[trigger] plan.items@[j],
                        stripped@[j]@,
                    ) by {
                        assert(store@[old(store)@.len() + j] == pre[old(store)@.len() + j]);
                    }
                }
            },
            PlanItem::NewVersion(d) => {
                match store.put(&stripped[i]) {
                    Ok(()) => {},
                    Err(e) => {
                        proof {
                            assert(store@.subrange(0, old(store)@.len() as int) =~= old(store)@);
                            assert(!commit_doc_ok(plan.items@[i as int], stripped@[i as int]@));
                        }
                        return Err(e);
                    },
                }
                proof {
                    assert(store@.subrange(0, old(store)@.len() as int) =~= old(store)@);
                    assert forall|j: int|
                        0 <= j < i implies store@[old(store)@.len() + j] == commit_row(
                        #[trigger] plan.items@[j],
                        stripped@[j]@,
                    ) by {
                        assert(store@[old(store)@.len() + j] == pre[old(store)@.len() + j]);
                    }
                }
            },
        }
        i += 1;
        proof {
            assert(plan.items@.subrange(0, i as int).drop_last() =~= plan.items@.subrange(
                0,
                i - 1,
            ));
            assert(stripped@.subrange(0, i as int).drop_last() =~= stripped@.subrange(0, i - 1));
            assert(plan.items@.subrange(0, i as int).last() == plan.items@[i - 1]);
            assert(stripped@.subrange(0, i as int).last() == stripped@[i - 1]);
            if plan.verb == Verb::Update {
                assert(docs_view(merged@) =~= merged_objs(
                    plan.items@.subrange(0, i as int),
                    stripped@.subrange(0, i as int),
                ));
            }
        }
    }
    let mut activity = plan.activity.deep_copy();
    proof {
        assert(plan.items@.subrange(0, n as int) =~= plan.items@);
        assert(stripped@.subrange(0, n as int) =~= stripped@);
    }
    if plan.verb == Verb::Update {
        proof {
            assert forall|x: int| 0 <= x < docs_view(merged@).len() implies val_wf(
                #[trigger] docs_view(merged@)[x],
            ) by {
                assert(docs_view(merged@)[x] == merged@[x]@);
            }
            assert(val_wf(Val::Arr(docs_view(merged@))));
            lemma_obj_wf_set_del(activity@, object_key(), Val::Arr(docs_view(merged@)));
        }
        activity.insert(
            String::from_str("https://www.w3.org/ns/activitystreams#object"),
            Doc::Arr(merged),
        );
    }
    let dt1 = datetime(ts);
    proof {
        lemma_obj_wf_set_del(activity@, published_key(), dt1@);
    }
    activity.insert(String::from_str("https://www.w3.org/ns/activitystreams#published"), dt1);
    let dt2 = datetime(ts);
    proof {
        lemma_obj_wf_set_del(activity@, updated_key(), dt2@);
    }
    activity.insert(String::from_str("https://www.w3.org/ns/activitystreams#updated"), dt2);
    let aid = oid_hex(activity_id);
    proof {
        lemma_oid_render_unique(activity_id.bytes@, aid@);
        lemma_obj_wf_set_del(activity@, "@id"@, Val::Str(oid_render(activity_id.bytes@)));
    }
    activity.insert(String::from_str("@id"), Doc::Str(aid));
    let aref = actor_ref(actor);
    proof {
        lemma_obj_wf_set_del(activity@, actor_key(), aref@);
    }
    activity.insert(String::from_str("https://www.w3.org/ns/activitystreams#actor"), aref);
    Ok(activity)
}

/// How many of the items are update merges.
pub open spec fn count_updates(items: Seq<PlanItem>) -> int
    decreases items,
{
    if items.len() == 0 {
        0
    } else {
        count_updates(items.drop_last()) + if items.last() is UpdateMerge {
            1int
        } else {
            0int
        }
    }
}


/// The display-name decoration of a new account's URL: the `name` followed
/// by a dash, or nothing when no name is given.
pub fn url_decoration(account: &DocObj) -> (r: Result<String, Error>)
    requires
        account.wf(),
    ensures
        match r {
            Ok(s) => if obj_has(account@, "name"@) {
                obj_get(account@, "name"@) is Str && s@ == obj_get(account@, "name"@)->Str_0
                    + "-"@
            } else {
                s@ == Seq::<char>::empty()
            },
            Err(e) => e == Error::BadRequest(BadReason::NameNotString) && obj_has(
                account@,
                "name"@,
            ) && !(obj_get(account@, "name"@) is Str),
        },
{
    match account.get("name") {
        None => {
            let s = String::new();
            Ok(s)
        },
        Some(d) => match d.as_str() {
            Some(n) => {
                let mut s = n.clone();
                s.append("-");
                Ok(s)
            },
            None => Err(Error::BadRequest(BadReason::NameNotString)),
        },
    }
}

/// A new account document readied for storage: the server identity under
/// `id`, and the request instant stamped as `published` and `updated`.
pub open spec fn account_prepared(
    account: Seq<(Seq<char>, Val)>,
    id: Seq<u8>,
    ts: Timestamp,
) -> Seq<(Seq<char>, Val)> {
    obj_set(
        obj_set(
            obj_set(account, "id"@, Val::Str(oid_render(id))),
            published_key(),
            datetime_val(ts),
        ),
        updated_key(),
        datetime_val(ts),
    )
}

/// Ready a submitted account document for its first version.
pub fn create_account_prepare(account: &mut DocObj, id: &ObjectId, ts: &Timestamp)
    requires
        old(account).wf(),
        id.wf(),
        ts.wf(),
    ensures
        final(account)@ == account_prepared(old(account)@, id.bytes@, *ts),
        final(account).wf(),
{
    let h = oid_hex(id);
    proof {
        lemma_oid_render_unique(id.bytes@, h@);
        lemma_obj_wf_set_del(account@, "id"@, Val::Str(oid_render(id.bytes@)));
    }
    account.insert(String::from_str("id"), Doc::Str(h));
    let dt1 = datetime(ts);
    proof {
        lemma_obj_wf_set_del(account@, published_key(), dt1@);
    }
    account.insert(String::from_str("https://www.w3.org/ns/activitystreams#published"), dt1);
    let dt2 = datetime(ts);
    proof {
        lemma_obj_wf_set_del(account@, updated_key(), dt2@);
    }
    account.insert(String::from_str("https://www.w3.org/ns/activitystreams#updated"), dt2);
}


/// Check the outcome of the external expansion: it must yield exactly one
/// top-level node, and that node an object — anything else marks malformed
/// input upstream, an internal error rather than a recoverable condition.
pub fn expansion_single_root(results: Vec<Doc>) -> (r: Result<DocObj, Error>)
    ensures
        match r {
            Ok(o) => results@.len() == 1 && results@[0]@ == Val::Obj(o@),
            Err(e) => e == Error::Internal && (results@.len() != 1 || !(results@[0]@ is Obj)),
        },
{
    if results.len() != 1 {
        return Err(Error::Internal);
    }
    let mut results = results;
    match results.remove(0) {
        Doc::Obj(o) => Ok(o),
        _ => Err(Error::Internal),
    }
}

} // verus!
