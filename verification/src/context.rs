//! The JSON-LD context manager: the two canonical context singletons, the
//! list operations that keep them implicit in storage and explicit on the
//! wire, and the pure halves of strip and unstrip that surround the external
//! expansion and compaction algorithm.

use vstd::prelude::*;
use vstd::string::*;

use crate::doc::{
    docs_view, equiv, keys_unique, lemma_arr_elem_wf, lemma_docs_view, lemma_equiv_reflexive,
    lemma_fields_view, lemma_obj_get_wf, lemma_obj_set_props, lemma_obj_wf_set_del, obj_del,
    obj_get, obj_has, obj_index_of, obj_set, val_wf, Doc, DocObj, Val,
};
use crate::error::Error;
use crate::negotiate::{Method, RequestHead};
use crate::util::{get_oid, oid_cut};

verus! {

broadcast use lemma_docs_view, lemma_fields_view;

/// The base ActivityStreams namespace context entry.
pub open spec fn base_context() -> Val {
    Val::Str("https://www.w3.org/ns/activitystreams"@)
}

/// One graft-context entry: an object carrying `@context` with a `@base`.
pub open spec fn graft_entry(base: Seq<char>) -> Val {
    Val::Obj(seq![("@context"@, Val::Obj(seq![("@base"@, Val::Str(base))]))])
}

/// The graft context: a singleton context object that compacts the targets
/// of specific relation properties to bare identifiers under relative URL
/// bases, so stored and served documents carry short ids.
pub open spec fn graft_context() -> Val {
    Val::Obj(
        seq![
            ("https://www.w3.org/ns/activitystreams#actor"@, graft_entry("../of/"@)),
            ("https://www.w3.org/ns/activitystreams#attributedTo"@, graft_entry("../of/"@)),
            ("http://www.w3.org/ns/ldp#inbox"@, graft_entry("../for/"@)),
            ("https://www.w3.org/ns/activitystreams#outbox"@, graft_entry("../by/"@)),
            ("https://www.w3.org/ns/activitystreams#object"@, graft_entry("../post/"@)),
        ],
    )
}

/// A graft-context entry is a well-formed value.
pub proof fn lemma_graft_entry_wf(base: Seq<char>)
    ensures
        val_wf(graft_entry(base)),
{
    let inner_fields = seq![("@base"@, Val::Str(base))];
    assert(inner_fields.len() == 1);
    assert(inner_fields[0].1 == Val::Str(base));
    assert(val_wf(Val::Str(base)));
    assert(keys_unique(inner_fields));
    assert(val_wf(Val::Obj(inner_fields)));
    let outer_fields = graft_entry(base)->Obj_0;
    assert(outer_fields.len() == 1);
    assert(outer_fields[0].1 == Val::Obj(inner_fields));
    assert(keys_unique(outer_fields));
    assert(val_wf(graft_entry(base)));
}

/// Both singletons are well-formed values.
pub proof fn lemma_singletons_wf()
    ensures
        val_wf(base_context()),
        val_wf(graft_context()),
{
    let g = graft_context()->Obj_0;
    reveal_strlit("https://www.w3.org/ns/activitystreams#actor");
    reveal_strlit("https://www.w3.org/ns/activitystreams#attributedTo");
    reveal_strlit("http://www.w3.org/ns/ldp#inbox");
    reveal_strlit("https://www.w3.org/ns/activitystreams#outbox");
    reveal_strlit("https://www.w3.org/ns/activitystreams#object");
    assert(g[0].0.len() == 43);
    assert(g[1].0.len() == 50);
    assert(g[2].0.len() == 30);
    assert(g[3].0.len() == 44);
    assert(g[4].0.len() == 44);
    assert(g[3].0[39] == 'u' && g[4].0[39] == 'b');
    assert(keys_unique(g));
    assert forall|i: int| 0 <= i < g.len() implies val_wf(#[trigger] g[i].1) by {
        lemma_graft_entry_wf("../of/"@);
        lemma_graft_entry_wf("../for/"@);
        lemma_graft_entry_wf("../by/"@);
        lemma_graft_entry_wf("../post/"@);
    }
}

/// Build one graft-context entry.
fn make_graft_entry(base: &str) -> (r: Doc)
    ensures
        r@ == graft_entry(base@),
        r.wf(),
{
    let mut inner = DocObj::new();
    inner.insert(String::from_str("@base"), Doc::Str(String::from_str(base)));
    let mut outer = DocObj::new();
    outer.insert(String::from_str("@context"), Doc::Obj(inner));
    let r = Doc::Obj(outer);
    proof {
        assert(r@->Obj_0 =~= graft_entry(base@)->Obj_0);
        assert(r@ == graft_entry(base@));
        lemma_graft_entry_wf(base@);
    }
    r
}

/// Build the base context entry.
pub fn make_base_context() -> (r: Doc)
    ensures
        r@ == base_context(),
        r.wf(),
{
    Doc::Str(String::from_str("https://www.w3.org/ns/activitystreams"))
}

/// Build the graft context singleton.
pub fn make_graft_context() -> (r: Doc)
    ensures
        r@ == graft_context(),
        r.wf(),
{
    let mut o = DocObj::new();
    proof {
        lemma_singletons_wf();
    }
    o.insert(
        String::from_str("https://www.w3.org/ns/activitystreams#actor"),
        make_graft_entry("../of/"),
    );
    o.insert(
        String::from_str("https://www.w3.org/ns/activitystreams#attributedTo"),
        make_graft_entry("../of/"),
    );
    o.insert(String::from_str("http://www.w3.org/ns/ldp#inbox"), make_graft_entry("../for/"));
    o.insert(
        String::from_str("https://www.w3.org/ns/activitystreams#outbox"),
        make_graft_entry("../by/"),
    );
    o.insert(
        String::from_str("https://www.w3.org/ns/activitystreams#object"),
        make_graft_entry("../post/"),
    );
    let r = Doc::Obj(o);
    proof {
        assert(r@->Obj_0 =~= graft_context()->Obj_0);
    }
    r
}

/// Whether some entry of the list is structurally equal to `x`.
pub open spec fn has_equiv(l: Seq<Val>, x: Val) -> bool {
    exists|i: int| 0 <= i < l.len() && equiv(#[trigger] l[i], x)
}

/// Index of the first entry structurally equal to `x`, or -1.
pub open spec fn first_equiv(l: Seq<Val>, x: Val) -> int
    decreases l.len(),
{
    if l.len() == 0 {
        -1
    } else if equiv(l[0], x) {
        0
    } else {
        let r = first_equiv(l.drop_first(), x);
        if r == -1 {
            -1
        } else {
            r + 1
        }
    }
}

/// What `first_equiv` returns: the first structurally equal entry.
pub proof fn lemma_first_equiv(l: Seq<Val>, x: Val)
    ensures
        first_equiv(l, x) == -1 ==> !has_equiv(l, x),
        first_equiv(l, x) != -1 ==> 0 <= first_equiv(l, x) < l.len() && equiv(
            l[first_equiv(l, x)],
            x,
        ) && forall|j: int| 0 <= j < first_equiv(l, x) ==> !equiv(#[trigger] l[j], x),
    decreases l.len(),
{
    if l.len() > 0 && !equiv(l[0], x) {
        let t = l.drop_first();
        lemma_first_equiv(t, x);
        assert forall|j: int| 1 <= j < l.len() implies t[j - 1] == l[j] by {}
        if first_equiv(l, x) == -1 && has_equiv(l, x) {
            let i = choose|i: int| 0 <= i < l.len() && equiv(l[i], x);
            assert(i != 0);
            assert(equiv(t[i - 1], x));
            assert(has_equiv(t, x));
        }
    }
}

/// What `ensure_present` leaves behind: the list unchanged when an entry
/// already equals the singleton, else the singleton inserted right after the
/// base context when present, at the front otherwise.
pub open spec fn ensure_present_spec(l: Seq<Val>, x: Val) -> Seq<Val> {
    if has_equiv(l, x) {
        l
    } else {
        let b = first_equiv(l, base_context());
        if b != -1 {
            l.insert(b + 1, x)
        } else {
            l.insert(0, x)
        }
    }
}

/// What `insert_context` leaves behind: the list unchanged when an entry
/// already equals the base context, else the base context inserted right
/// before the graft context when present, at the front otherwise.
pub open spec fn insert_base_spec(l: Seq<Val>) -> Seq<Val> {
    if has_equiv(l, base_context()) {
        l
    } else {
        let g = first_equiv(l, graft_context());
        if g != -1 {
            l.insert(g, base_context())
        } else {
            l.insert(0, base_context())
        }
    }
}

/// Whether this document equals the base context entry.
fn is_base(d: &Doc) -> (r: bool)
    ensures
        r == equiv(d@, base_context()),
{
    match d {
        Doc::Str(s) => crate::chars::string_is(s, "https://www.w3.org/ns/activitystreams"),
        _ => false,
    }
}

/// All entries of a context list are well-formed.
pub open spec fn list_wf(l: Seq<Doc>) -> bool {
    forall|i: int| 0 <= i < l.len() ==> (#[trigger] l[i]).wf()
}

/// Insert `singleton` into the list unless an entry already equals it;
/// insertion lands right after the base context when present, else at the
/// front. Idempotent: a second call leaves the list as it stands.
#[verifier::loop_isolation(false)]
pub fn ensure_present(list: &mut Vec<Doc>, singleton: &Doc)
    requires
        list_wf(old(list)@),
        singleton.wf(),
    ensures
        docs_view(final(list)@) == ensure_present_spec(docs_view(old(list)@), singleton@),
        list_wf(final(list)@),
{
    let ghost l0 = docs_view(list@);
    let n = list.len();
    let mut i: usize = 0;
    while i < n
        invariant
            n == list@.len(),
            i <= n,
            *list == *old(list),
            forall|j: int| 0 <= j < i ==> !equiv(#[trigger] l0[j], singleton@),
        decreases n - i,
    {
        if list[i].deep_eq(singleton) {
            proof {
                assert(equiv(l0[i as int], singleton@));
                assert(has_equiv(l0, singleton@));
            }
            return ;
        }
        i += 1;
    }
    proof {
        assert(!has_equiv(l0, singleton@));
    }
    let mut b: usize = 0;
    let mut base_at: Option<usize> = None;
    while b < n
        invariant
            n == list@.len(),
            b <= n,
            *list == *old(list),
            base_at is None,
            forall|j: int| 0 <= j < b ==> !equiv(#[trigger] l0[j], base_context()),
        decreases n - b,
    {
        if is_base(&list[b]) {
            proof {
                lemma_first_equiv(l0, base_context());
                assert(equiv(l0[b as int], base_context()));
                assert(has_equiv(l0, base_context()));
                assert(first_equiv(l0, base_context()) == b as int);
            }
            base_at = Some(b);
            break ;
        }
        b += 1;
    }
    let pos: usize = match base_at {
        Some(b) => b + 1,
        None => {
            proof {
                lemma_first_equiv(l0, base_context());
                if first_equiv(l0, base_context()) != -1 {
                    assert(equiv(l0[first_equiv(l0, base_context())], base_context()));
                }
            }
            0
        },
    };
    list.insert(pos, singleton.deep_copy());
    proof {
        assert(docs_view(list@) =~= l0.insert(pos as int, singleton@));
    }
}

/// Insert the base context unless an entry already equals it; insertion
/// lands right before the graft context when present, else at the front.
#[verifier::loop_isolation(false)]
pub fn insert_context(list: &mut Vec<Doc>)
    requires
        list_wf(old(list)@),
    ensures
        docs_view(final(list)@) == insert_base_spec(docs_view(old(list)@)),
        list_wf(final(list)@),
{
    let ghost l0 = docs_view(list@);
    let base = make_base_context();
    let graft = make_graft_context();
    let n = list.len();
    let mut i: usize = 0;
    while i < n
        invariant
            n == list@.len(),
            i <= n,
            *list == *old(list),
            forall|j: int| 0 <= j < i ==> !equiv(#[trigger] l0[j], base_context()),
        decreases n - i,
    {
        if is_base(&list[i]) {
            proof {
                assert(equiv(l0[i as int], base_context()));
                assert(has_equiv(l0, base_context()));
            }
            return ;
        }
        i += 1;
    }
    proof {
        assert(!has_equiv(l0, base_context()));
    }
    let mut g: usize = 0;
    let mut graft_at: Option<usize> = None;
    while g < n
        invariant
            n == list@.len(),
            g <= n,
            *list == *old(list),
            graft_at is None,
            forall|j: int| 0 <= j < g ==> !equiv(#[trigger] l0[j], graft_context()),
        decreases n - g,
    {
        if list[g].deep_eq(&graft) {
            proof {
                lemma_first_equiv(l0, graft_context());
                assert(equiv(l0[g as int], graft_context()));
                assert(has_equiv(l0, graft_context()));
                assert(first_equiv(l0, graft_context()) == g as int);
            }
            graft_at = Some(g);
            break ;
        }
        g += 1;
    }
    let pos: usize = match graft_at {
        Some(g) => g,
        None => {
            proof {
                lemma_first_equiv(l0, graft_context());
                if first_equiv(l0, graft_context()) != -1 {
                    assert(equiv(l0[first_equiv(l0, graft_context())], graft_context()));
                }
            }
            0
        },
    };
    list.insert(pos, base);
    proof {
        assert(docs_view(list@) =~= l0.insert(pos as int, base_context()));
    }
}

/// Insert the graft context unless an entry already equals it; insertion
/// lands right after the base context when present, else at the front.
pub fn insert_graft_context(list: &mut Vec<Doc>)
    requires
        list_wf(old(list)@),
    ensures
        docs_view(final(list)@) == ensure_present_spec(docs_view(old(list)@), graft_context()),
        list_wf(final(list)@),
{
    let graft = make_graft_context();
    ensure_present(list, &graft);
}

/// `ensure_present` is idempotent: a second application with the same
/// singleton returns the list of the first, for any list and any
/// well-formed singleton.
pub proof fn lemma_ensure_present_idempotent(l: Seq<Val>, x: Val)
    requires
        val_wf(x),
    ensures
        ensure_present_spec(ensure_present_spec(l, x), x) == ensure_present_spec(l, x),
{
    let l1 = ensure_present_spec(l, x);
    if !has_equiv(l, x) {
        lemma_equiv_reflexive(x);
        let b = first_equiv(l, base_context());
        let p: int = if b != -1 {
            b + 1
        } else {
            0
        };
        lemma_first_equiv(l, base_context());
        assert(0 <= p <= l.len());
        assert(l1 == l.insert(p, x));
        assert(l1[p] == x);
        assert(has_equiv(l1, x));
    }
}

/// The spec-side hook for the graft-context opt-in. The activation condition
/// is deliberately never met: the profile token that would request the graft
/// context is not yet defined, and the hook is kept so one can be.
pub open spec fn graft_optin(head: RequestHead) -> bool {
    false
}

/// Whether the request opts into the graft context (see `graft_optin`).
fn graft_optin_exec(head: &RequestHead) -> (r: bool)
    ensures
        r == graft_optin(*head),
{
    false
}

/// The context list a response carries: what the object already holds (none
/// makes an empty list, a single value a singleton list, an array stands as
/// it is), the graft context when the request opts in, and the base context
/// always.
pub open spec fn response_context_spec(o: Seq<(Seq<char>, Val)>, head: RequestHead) -> Seq<Val> {
    let own: Seq<Val> = if obj_has(o, "@context"@) {
        match obj_get(o, "@context"@) {
            Val::Arr(a) => a,
            v => seq![v],
        }
    } else {
        Seq::empty()
    };
    let grafted = if graft_optin(head) {
        ensure_present_spec(own, graft_context())
    } else {
        own
    };
    insert_base_spec(grafted)
}

/// Build the context list for a response to `head` about `object`.
pub fn context(object: &DocObj, head: &RequestHead) -> (r: Result<Vec<Doc>, Error>)
    requires
        object.wf(),
    ensures
        match r {
            Ok(ctx) => head.method != Method::Other && docs_view(ctx@) == response_context_spec(
                object@,
                *head,
            ) && list_wf(ctx@),
            Err(e) => e == Error::MethodNotAllowed && head.method == Method::Other,
        },
{
    if let Method::Other = head.method {
        return Err(Error::MethodNotAllowed);
    }
    let mut ctx: Vec<Doc> = Vec::new();
    match object.get("@context") {
        None => {
            proof {
                assert(docs_view(ctx@) =~= Seq::<Val>::empty());
            }
        },
        Some(d) => {
            proof {
                lemma_obj_get_wf(object@, "@context"@);
            }
            match d {
                Doc::Arr(a) => {
                    let m = a.len();
                    let mut i: usize = 0;
                    while i < m
                        invariant
                            m == a@.len(),
                            i <= m,
                            ctx@.len() == i,
                            val_wf(Val::Arr(docs_view(a@))),
                            docs_view(a@) == obj_get(object@, "@context"@)->Arr_0,
                            forall|j: int| 0 <= j < i ==> ctx@[j]@ == #[trigger] a@[j]@,
                            forall|j: int| 0 <= j < i ==> (#[trigger] ctx@[j]).wf(),
                        decreases m - i,
                    {
                        proof {
                            assert(docs_view(a@).len() == a@.len());
                            assert(docs_view(a@)[i as int] == a@[i as int]@);
                            lemma_arr_elem_wf(docs_view(a@), i as int);
                        }
                        let c = a[i].deep_copy();
                        ctx.push(c);
                        i += 1;
                    }
                    proof {
                        assert(docs_view(ctx@) =~= docs_view(a@));
                    }
                },
                other => {
                    ctx.push(other.deep_copy());
                    proof {
                        assert(docs_view(ctx@) =~= seq![obj_get(object@, "@context"@)]);
                    }
                },
            }
        },
    }
    if graft_optin_exec(head) {
        insert_graft_context(&mut ctx);
    }
    insert_context(&mut ctx);
    Ok(ctx)
}


/// The canonical two-singleton context attached before expansion.
pub open spec fn canonical_pair() -> Seq<Val> {
    seq![base_context(), graft_context()]
}

/// What `unstrip_context` leaves behind: the canonical pair where the
/// document carried no `@context`; the two singletons ensured inside a
/// carried array; the pair alone where the single carried entry was one of
/// the singletons; and the pair followed by any other single entry.
pub open spec fn unstrip_ctx_spec(o: Seq<(Seq<char>, Val)>) -> Seq<(Seq<char>, Val)> {
    if !obj_has(o, "@context"@) {
        obj_set(o, "@context"@, Val::Arr(canonical_pair()))
    } else {
        let v = obj_get(o, "@context"@);
        let o1 = obj_del(o, "@context"@);
        match v {
            Val::Arr(a) => obj_set(
                o1,
                "@context"@,
                Val::Arr(insert_base_spec(ensure_present_spec(a, graft_context()))),
            ),
            other => if equiv(other, base_context()) || equiv(other, graft_context()) {
                obj_set(o1, "@context"@, Val::Arr(canonical_pair()))
            } else {
                obj_set(o1, "@context"@, Val::Arr(canonical_pair().push(other)))
            },
        }
    }
}

/// Attach the canonical context to a compact document, ahead of expansion.
pub fn unstrip_context(object: &mut DocObj)
    requires
        old(object).wf(),
    ensures
        final(object)@ == unstrip_ctx_spec(old(object)@),
        final(object).wf(),
{
    proof {
        lemma_singletons_wf();
        if obj_has(old(object)@, "@context"@) {
            lemma_obj_get_wf(old(object)@, "@context"@);
        }
        lemma_obj_wf_set_del(old(object)@, "@context"@, Val::Null);
    }
    let key = String::from_str("@context");
    match object.remove("@context") {
        None => {
            let pair: Vec<Doc> = vec![make_base_context(), make_graft_context()];
            proof {
                assert(docs_view(pair@) =~= canonical_pair());
                assert(val_wf(Val::Arr(canonical_pair())));
            }
            object.insert(key, Doc::Arr(pair));
            proof {
                lemma_obj_wf_set_del(old(object)@, "@context"@, Val::Arr(canonical_pair()));
            }
        },
        Some(d) => {
            proof {
                assert(val_wf(d@));
            }
            match d {
                Doc::Arr(mut a) => {
                    proof {
                        assert forall|i: int| 0 <= i < a@.len() implies (#[trigger] a@[i]).wf() by {
                            lemma_arr_elem_wf(docs_view(a@), i);
                            assert(docs_view(a@)[i] == a@[i]@);
                        }
                    }
                    insert_graft_context(&mut a);
                    insert_context(&mut a);
                    let ghost newlist = docs_view(a@);
                    object.insert(key, Doc::Arr(a));
                    proof {
                        assert forall|i: int| 0 <= i < newlist.len() implies val_wf(
                            #[trigger] newlist[i],
                        ) by {
                            assert(newlist[i] == a@[i]@);
                            assert(a@[i].wf());
                        }
                        assert(val_wf(Val::Arr(newlist)));
                        lemma_obj_wf_set_del(
                            obj_del(old(object)@, "@context"@),
                            "@context"@,
                            Val::Arr(newlist),
                        );
                    }
                },
                other => {
                    let graft = make_graft_context();
                    let single = is_base(&other) || other.deep_eq(&graft);
                    let mut pair: Vec<Doc> = vec![make_base_context(), make_graft_context()];
                    if !single {
                        pair.push(other);
                    }
                    let ghost newlist = docs_view(pair@);
                    proof {
                        if single {
                            assert(newlist =~= canonical_pair());
                        } else {
                            assert(newlist =~= canonical_pair().push(
                                obj_get(old(object)@, "@context"@),
                            ));
                        }
                        assert forall|i: int| 0 <= i < newlist.len() implies val_wf(
                            #[trigger] newlist[i],
                        ) by {
                            assert(newlist[i] == pair@[i]@);
                        }
                        assert(val_wf(Val::Arr(newlist)));
                    }
                    object.insert(key, Doc::Arr(pair));
                    proof {
                        lemma_obj_wf_set_del(
                            obj_del(old(object)@, "@context"@),
                            "@context"@,
                            Val::Arr(newlist),
                        );
                    }
                },
            }
        },
    }
}

/// What stripping does to a compacted document's `@context`: the bare base
/// IRI vanishes; in an array a leading base entry and then a leading graft
/// entry are dropped, the rest staying only when nonempty; anything else
/// stays as it was.
pub open spec fn strip_ctx_spec(o: Seq<(Seq<char>, Val)>) -> Seq<(Seq<char>, Val)> {
    if !obj_has(o, "@context"@) {
        o
    } else {
        let v = obj_get(o, "@context"@);
        let o1 = obj_del(o, "@context"@);
        match v {
            Val::Str(s) => if s == "https://www.w3.org/ns/activitystreams"@ {
                o1
            } else {
                obj_set(o1, "@context"@, v)
            },
            Val::Arr(a) => {
                let a1 = if a.len() > 0 && equiv(a[0], base_context()) {
                    a.drop_first()
                } else {
                    a
                };
                let a2 = if a1.len() > 0 && equiv(a1[0], graft_context()) {
                    a1.drop_first()
                } else {
                    a1
                };
                if a2.len() > 0 {
                    obj_set(o1, "@context"@, Val::Arr(a2))
                } else {
                    o1
                }
            },
            other => obj_set(o1, "@context"@, other),
        }
    }
}

/// A literal empty-string value under `k` collapses to field absence.
pub open spec fn collapse_empty(o: Seq<(Seq<char>, Val)>, k: Seq<char>) -> Seq<(Seq<char>, Val)> {
    if obj_has(o, k) && obj_get(o, k) == Val::Str(Seq::<char>::empty()) {
        obj_del(o, k)
    } else {
        o
    }
}

/// What `strip_finish` leaves behind: the context handling of
/// `strip_ctx_spec`, then empty-string `inbox` and `outbox` collapsed to
/// absence (placeholder artifacts of relative-URL compaction).
pub open spec fn strip_finish_spec(o: Seq<(Seq<char>, Val)>) -> Seq<(Seq<char>, Val)> {
    collapse_empty(collapse_empty(strip_ctx_spec(o), "inbox"@), "outbox"@)
}

/// Remove `k` when it holds a literal empty string.
fn collapse_empty_field(object: &mut DocObj, k: &str)
    requires
        old(object).wf(),
    ensures
        final(object)@ == collapse_empty(old(object)@, k@),
        final(object).wf(),
{
    proof {
        lemma_obj_wf_set_del(old(object)@, k@, Val::Null);
    }
    let is_empty_str = match object.get(k) {
        Some(Doc::Str(s)) => s.as_str().unicode_len() == 0,
        _ => false,
    };
    proof {
        if is_empty_str {
            let v = obj_get(object@, k@);
            assert(v is Str && v->Str_0.len() == 0);
            assert(v->Str_0 =~= Seq::<char>::empty());
        }
    }
    if is_empty_str {
        object.remove(k);
    }
}

/// Finish stripping a compacted document for storage: drop the leading
/// canonical context entries and collapse placeholder `inbox`/`outbox`.
pub fn strip_finish(object: &mut DocObj)
    requires
        old(object).wf(),
    ensures
        final(object)@ == strip_finish_spec(old(object)@),
        final(object).wf(),
{
    proof {
        lemma_singletons_wf();
        if obj_has(old(object)@, "@context"@) {
            lemma_obj_get_wf(old(object)@, "@context"@);
        }
        lemma_obj_wf_set_del(old(object)@, "@context"@, Val::Null);
    }
    let key = String::from_str("@context");
    match object.remove("@context") {
        None => {},
        Some(d) => {
            proof {
                assert(val_wf(d@));
            }
            match d {
                Doc::Str(s) => {
                    if !crate::chars::string_is(&s, "https://www.w3.org/ns/activitystreams") {
                        object.insert(key, Doc::Str(s));
                        proof {
                            lemma_obj_wf_set_del(
                                obj_del(old(object)@, "@context"@),
                                "@context"@,
                                obj_get(old(object)@, "@context"@),
                            );
                        }
                    }
                },
                Doc::Arr(mut a) => {
                    let ghost a0 = docs_view(a@);
                    proof {
                        assert forall|i: int| 0 <= i < a@.len() implies (#[trigger] a@[i]).wf() by {
                            lemma_arr_elem_wf(docs_view(a@), i);
                            assert(docs_view(a@)[i] == a@[i]@);
                        }
                    }
                    if a.len() > 0 && is_base(&a[0]) {
                        a.remove(0);
                        proof {
                            assert(docs_view(a@) =~= a0.drop_first());
                        }
                    }
                    let ghost a1 = docs_view(a@);
                    proof {
                        assert forall|i: int| 0 <= i < a@.len() implies (#[trigger] a@[i]).wf() by {
                            lemma_arr_elem_wf(docs_view(a@), i);
                            assert(docs_view(a@)[i] == a@[i]@);
                        }
                    }
                    let graft = make_graft_context();
                    if a.len() > 0 && a[0].deep_eq(&graft) {
                        a.remove(0);
                        proof {
                            assert(docs_view(a@) =~= a1.drop_first());
                        }
                    }
                    if a.len() > 0 {
                        let ghost rest = docs_view(a@);
                        proof {
                            assert forall|i: int| 0 <= i < rest.len() implies val_wf(
                                #[trigger] rest[i],
                            ) by {
                                assert(rest[i] == a@[i]@);
                                assert(a@[i].wf());
                            }
                            assert(val_wf(Val::Arr(rest)));
                        }
                        object.insert(key, Doc::Arr(a));
                        proof {
                            lemma_obj_wf_set_del(
                                obj_del(old(object)@, "@context"@),
                                "@context"@,
                                Val::Arr(rest),
                            );
                        }
                    }
                },
                other => {
                    object.insert(key, other);
                    proof {
                        lemma_obj_wf_set_del(
                            obj_del(old(object)@, "@context"@),
                            "@context"@,
                            obj_get(old(object)@, "@context"@),
                        );
                    }
                },
            }
        },
    }
    proof {
        assert(object@ == strip_ctx_spec(old(object)@));
    }
    collapse_empty_field(object, "inbox");
    collapse_empty_field(object, "outbox");
}

/// What `unstrip_actor_finish` leaves behind: when the `@id` string yields
/// an identity token, absent `inbox` and `outbox` fields are synthesized
/// from it under the collection URL bases.
pub open spec fn actor_defaults_spec(o: Seq<(Seq<char>, Val)>) -> Seq<(Seq<char>, Val)> {
    match obj_get(o, "@id"@) {
        Val::Str(s) => if oid_cut(s) != -1 {
            let oid = s.subrange(oid_cut(s) + 1, s.len() as int);
            let o1 = if obj_has(o, "inbox"@) {
                o
            } else {
                obj_set(o, "inbox"@, Val::Str("../for/"@ + oid))
            };
            if obj_has(o1, "outbox"@) {
                o1
            } else {
                obj_set(o1, "outbox"@, Val::Str("../by/"@ + oid))
            }
        } else {
            o
        },
        _ => o,
    }
}

/// Synthesize default `inbox`/`outbox` for an expanded actor document, so
/// actors stay dereferenceable as collections. An expanded object without a
/// string `@id` breaks an upstream shape invariant.
pub fn unstrip_actor_finish(object: &mut DocObj) -> (r: Result<(), Error>)
    requires
        old(object).wf(),
    ensures
        match r {
            Ok(()) => obj_has(old(object)@, "@id"@) && obj_get(old(object)@, "@id"@) is Str
                && final(object)@ == actor_defaults_spec(old(object)@) && final(object).wf(),
            Err(e) => e == Error::Internal && !(obj_has(old(object)@, "@id"@) && obj_get(
                old(object)@,
                "@id"@,
            ) is Str) && *final(object) == *old(object),
        },
{
    let id_string: String = match object.get("@id") {
        Some(Doc::Str(s)) => s.clone(),
        _ => {
            return Err(Error::Internal);
        },
    };
    let oid: String = match get_oid(id_string.as_str()) {
        Some(t) => String::from_str(t),
        None => {
            return Ok(());
        },
    };
    proof {
        lemma_obj_wf_set_del(old(object)@, "inbox"@, Val::Str("../for/"@ + oid@));
    }
    if !object.contains_key("inbox") {
        let mut v = String::from_str("../for/");
        v.append(oid.as_str());
        object.insert(String::from_str("inbox"), Doc::Str(v));
        proof {
            lemma_obj_wf_set_del(old(object)@, "inbox"@, Val::Str("../for/"@ + oid@));
        }
    }
    proof {
        lemma_obj_wf_set_del(object@, "outbox"@, Val::Str("../by/"@ + oid@));
    }
    if !object.contains_key("outbox") {
        let mut v = String::from_str("../by/");
        v.append(oid.as_str());
        object.insert(String::from_str("outbox"), Doc::Str(v));
        proof {
            lemma_obj_wf_set_del(
                actor_defaults_spec(old(object)@),
                "outbox"@,
                Val::Str("../by/"@ + oid@),
            );
        }
    }
    Ok(())
}

/// The context bookkeeping round-trips: attaching the canonical pair to a
/// compact document without a context of its own, and stripping a compacted
/// result that carries exactly that pair back, restores the document. That
/// the external expansion and compaction return the body unchanged and echo
/// the supplied context is the conformance assumed of them, not proved here;
/// documents holding a literal empty-string `inbox` or `outbox` are left
/// out, since stripping collapses those fields to absence.
pub proof fn lemma_strip_restores_document(o: Seq<(Seq<char>, Val)>)
    requires
        val_wf(Val::Obj(o)),
        !obj_has(o, "@context"@),
        obj_has(o, "inbox"@) ==> obj_get(o, "inbox"@) != Val::Str(Seq::<char>::empty()),
        obj_has(o, "outbox"@) ==> obj_get(o, "outbox"@) != Val::Str(Seq::<char>::empty()),
    ensures
        unstrip_ctx_spec(o) == obj_set(o, "@context"@, Val::Arr(canonical_pair())),
        strip_finish_spec(unstrip_ctx_spec(o)) == o,
{
    lemma_singletons_wf();
    lemma_equiv_reflexive(base_context());
    lemma_equiv_reflexive(graft_context());
    lemma_obj_set_props(o, "@context"@, Val::Arr(canonical_pair()));
    let u = obj_set(o, "@context"@, Val::Arr(canonical_pair()));
    assert(u == o.push(("@context"@, Val::Arr(canonical_pair()))));
    assert(obj_has(u, "@context"@));
    assert(obj_get(u, "@context"@) == Val::Arr(canonical_pair()));
    let o1 = obj_del(u, "@context"@);
    let i0 = obj_index_of(u, "@context"@);
    assert(0 <= i0 < u.len() && u[i0].0 == "@context"@);
    assert(i0 == o.len()) by {
        if i0 < o.len() {
            assert(o[i0].0 == "@context"@);
            assert(obj_has(o, "@context"@));
        }
    }
    assert(o1 =~= o);
    let a = canonical_pair();
    assert(a[0] == base_context());
    assert(equiv(a[0], base_context()));
    let a1 = a.drop_first();
    assert(a1.len() == 1 && a1[0] == graft_context());
    assert(equiv(a1[0], graft_context()));
    let a2 = a1.drop_first();
    assert(a2.len() == 0);
    assert(strip_ctx_spec(u) == o);
    assert(collapse_empty(o, "inbox"@) == o);
    assert(collapse_empty(o, "outbox"@) == o);
}


/// Index of the last entry structurally equal to `x`, or -1.
pub open spec fn last_equiv(l: Seq<Val>, x: Val) -> int
    decreases l.len(),
{
    if l.len() == 0 {
        -1
    } else if equiv(l.last(), x) {
        l.len() - 1
    } else {
        last_equiv(l.drop_last(), x)
    }
}

/// What `last_equiv` returns: the last structurally equal entry.
pub proof fn lemma_last_equiv(l: Seq<Val>, x: Val)
    ensures
        last_equiv(l, x) == -1 ==> forall|j: int| 0 <= j < l.len() ==> !equiv(#[trigger] l[j], x),
        last_equiv(l, x) != -1 ==> 0 <= last_equiv(l, x) < l.len() && equiv(l[last_equiv(l, x)], x)
            && forall|j: int| last_equiv(l, x) < j < l.len() ==> !equiv(#[trigger] l[j], x),
    decreases l.len(),
{
    if l.len() > 0 && !equiv(l.last(), x) {
        let t = l.drop_last();
        lemma_last_equiv(t, x);
        assert forall|j: int| 0 <= j < l.len() - 1 implies t[j] == l[j] by {}
    }
}

/// Every graft-context entry of the list given a `@base`, so that relative
/// identifier compaction resolves against the request's base URL.
pub open spec fn set_bases_spec(l: Seq<Val>, base: Seq<char>) -> Seq<Val>
    decreases l,
{
    if l.len() == 0 {
        Seq::empty()
    } else {
        set_bases_spec(l.drop_last(), base).push(
            if equiv(l.last(), graft_context()) {
                Val::Obj(obj_set(l.last()->Obj_0, "@base"@, Val::Str(base)))
            } else {
                l.last()
            },
        )
    }
}

/// `set_bases_spec` has the length of its argument and rewrites pointwise.
pub proof fn lemma_set_bases(l: Seq<Val>, base: Seq<char>)
    ensures
        set_bases_spec(l, base).len() == l.len(),
        forall|i: int|
            0 <= i < l.len() ==> #[trigger] set_bases_spec(l, base)[i] == if equiv(
                l[i],
                graft_context(),
            ) {
                Val::Obj(obj_set(l[i]->Obj_0, "@base"@, Val::Str(base)))
            } else {
                l[i]
            },
    decreases l.len(),
{
    if l.len() > 0 {
        lemma_set_bases(l.drop_last(), base);
    }
}

/// Give each graft-context entry of the list a `@base` of the request's
/// resolved URL ahead of compaction, and say where the last one stands so
/// the `@base` can be stripped from the emitted context afterward.
#[verifier::loop_isolation(false)]
pub fn set_graft_base(list: &mut Vec<Doc>, base: &str) -> (r: Option<usize>)
    requires
        list_wf(old(list)@),
    ensures
        docs_view(final(list)@) == set_bases_spec(docs_view(old(list)@), base@),
        list_wf(final(list)@),
        match r {
            Some(i) => i as int == last_equiv(docs_view(old(list)@), graft_context()),
            None => last_equiv(docs_view(old(list)@), graft_context()) == -1,
        },
{
    let ghost l0 = docs_view(list@);
    proof {
        lemma_singletons_wf();
        lemma_set_bases(l0, base@);
        lemma_last_equiv(l0, graft_context());
    }
    let graft = make_graft_context();
    let n = list.len();
    let mut found: Option<usize> = None;
    let mut i: usize = 0;
    while i < n
        invariant
            n == list@.len(),
            l0.len() == n,
            i <= n,
            list_wf(list@),
            forall|j: int| i <= j < n ==> #[trigger] list@[j]@ == l0[j],
            forall|j: int|
                0 <= j < i ==> #[trigger] list@[j]@ == set_bases_spec(l0, base@)[j],
            match found {
                Some(f) => f < i && equiv(l0[f as int], graft_context()) && forall|j: int|
                    f < j < i ==> !equiv(#[trigger] l0[j], graft_context()),
                None => forall|j: int| 0 <= j < i ==> !equiv(#[trigger] l0[j], graft_context()),
            },
        decreases n - i,
    {
        if list[i].deep_eq(&graft) {
            let entry = match &list[i] {
                Doc::Obj(o) => {
                    let mut copy = o.deep_copy();
                    proof {
                        assert(val_wf(Val::Obj(copy@)));
                        lemma_obj_wf_set_del(copy@, "@base"@, Val::Str(base@));
                    }
                    copy.insert(String::from_str("@base"), Doc::Str(String::from_str(base)));
                    Doc::Obj(copy)
                },
                _ => {
                    proof {
                        assert(equiv(l0[i as int], graft_context()));
                        assert(false);
                    }
                    Doc::Null
                },
            };
            list[i] = entry;
            found = Some(i);
        }
        i += 1;
    }
    proof {
        assert(docs_view(list@) =~= set_bases_spec(l0, base@));
        if found is None && last_equiv(l0, graft_context()) != -1 {
            assert(equiv(l0[last_equiv(l0, graft_context())], graft_context()));
        }
    }
    found
}

/// Strip the `@base` given before compaction from the emitted context's
/// entry at `i`, so the public context object stays unpolluted. Success is
/// owed exactly when the document carries a `@context` array with an object
/// at `i`; anything else breaks the compaction's shape.
pub fn clear_graft_base(object: &mut DocObj, i: usize) -> (r: Result<(), Error>)
    requires
        old(object).wf(),
    ensures
        r is Ok <==> obj_has(old(object)@, "@context"@) && obj_get(old(object)@, "@context"@)
            is Arr && i < obj_get(old(object)@, "@context"@)->Arr_0.len() && obj_get(
            old(object)@,
            "@context"@,
        )->Arr_0[i as int] is Obj,
        match r {
            Ok(()) => {
                let ctx = obj_get(old(object)@, "@context"@)->Arr_0;
                &&& obj_has(old(object)@, "@context"@)
                &&& obj_get(old(object)@, "@context"@) is Arr
                &&& i < ctx.len()
                &&& ctx[i as int] is Obj
                &&& final(object)@ == obj_set(
                    old(object)@,
                    "@context"@,
                    Val::Arr(
                        ctx.update(
                            i as int,
                            Val::Obj(obj_del(ctx[i as int]->Obj_0, "@base"@)),
                        ),
                    ),
                )
                &&& final(object).wf()
            },
            Err(e) => e == Error::Internal && *final(object) == *old(object),
        },
{
    let ghost ctx = obj_get(object@, "@context"@)->Arr_0;
    let arr: &Vec<Doc> = match object.get("@context") {
        Some(d) => match d.as_arr() {
            Some(a) => a,
            None => {
                return Err(Error::Internal);
            },
        },
        None => {
            return Err(Error::Internal);
        },
    };
    proof {
        lemma_obj_get_wf(object@, "@context"@);
    }
    proof {
        assert(ctx.len() == arr@.len());
    }
    if i >= arr.len() {
        return Err(Error::Internal);
    }
    let inner: &DocObj = match &arr[i] {
        Doc::Obj(o) => o,
        _ => {
            proof {
                assert(ctx[i as int] == arr@[i as int]@);
            }
            return Err(Error::Internal);
        },
    };
    proof {
        lemma_arr_elem_wf(ctx, i as int);
        assert(ctx[i as int] == arr@[i as int]@);
    }
    let mut inner_copy = inner.deep_copy();
    proof {
        assert(val_wf(Val::Obj(inner_copy@)));
        lemma_obj_wf_set_del(inner_copy@, "@base"@, Val::Null);
    }
    inner_copy.remove("@base");
    let n = arr.len();
    let mut out: Vec<Doc> = Vec::new();
    let mut j: usize = 0;
    #[verifier::loop_isolation(false)]
    while j < n
        invariant
            n == arr@.len(),
            j <= n,
            out@.len() == j,
            i < n,
            inner_copy@ == obj_del(ctx[i as int]->Obj_0, "@base"@),
            inner_copy.wf(),
            forall|k: int| 0 <= k < j && k != i ==> #[trigger] out@[k]@ == ctx[k],
            forall|k: int|
                0 <= k < j && k == i ==> #[trigger] out@[k]@ == Val::Obj(
                    obj_del(ctx[i as int]->Obj_0, "@base"@),
                ),
            forall|k: int| 0 <= k < j ==> (#[trigger] out@[k]).wf(),
        decreases n - j,
    {
        proof {
            lemma_arr_elem_wf(ctx, j as int);
            assert(ctx[j as int] == arr@[j as int]@);
        }
        if j == i {
            let c = inner_copy.deep_copy();
            out.push(Doc::Obj(c));
        } else {
            let c = arr[j].deep_copy();
            out.push(c);
        }
        j += 1;
    }
    proof {
        assert(docs_view(out@) =~= ctx.update(
            i as int,
            Val::Obj(obj_del(ctx[i as int]->Obj_0, "@base"@)),
        ));
        assert forall|k: int| 0 <= k < docs_view(out@).len() implies val_wf(
            #[trigger] docs_view(out@)[k],
        ) by {
            assert(docs_view(out@)[k] == out@[k]@);
        }
        assert(val_wf(Val::Arr(docs_view(out@))));
        lemma_obj_wf_set_del(old(object)@, "@context"@, Val::Arr(docs_view(out@)));
    }
    object.insert(String::from_str("@context"), Doc::Arr(out));
    Ok(())
}

} // verus!
