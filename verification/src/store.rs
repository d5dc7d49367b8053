//! The object store: durable, append-only, time-indexed persistence of
//! versioned documents, with the storage-boundary coercion that canonicalizes
//! identity and instant strings.

use vstd::prelude::*;
use vstd::string::*;

use crate::doc::{
    fields_view, lemma_fields_view, lemma_obj_del_props, lemma_obj_set_props, obj_del, obj_get,
    obj_has, obj_set, val_wf, Doc, DocObj, Val,
};
use crate::error::Error;
use crate::oid::{
    is_oid_str, lemma_oid_roundtrip, oid_byte, oid_chars_ok, oid_eq, oid_hex, parse_oid, ObjectId,
};
use crate::time::{
    instant_fields, instant_shape, parse_instant, render_millis, render_rfc3339_millis, ts_le,
    ts_lt, Timestamp,
};

verus! {

broadcast use lemma_fields_view;

/// The bytes a 24-hex-digit identity string encodes, high digit first.
pub open spec fn oid_bytes_upto(s: Seq<char>, k: int) -> Seq<u8>
    decreases k,
{
    if k <= 0 {
        Seq::empty()
    } else {
        oid_bytes_upto(s, k - 1).push(oid_byte(s, k - 1))
    }
}

/// The twelve bytes an identity string encodes.
pub open spec fn oid_bytes(s: Seq<char>) -> Seq<u8> {
    oid_bytes_upto(s, 12)
}

/// `oid_bytes_upto` has length `k` and holds `oid_byte` pointwise.
pub proof fn lemma_oid_bytes_upto(s: Seq<char>, k: int)
    requires
        k >= 0,
    ensures
        oid_bytes_upto(s, k).len() == k,
        forall|i: int| 0 <= i < k ==> oid_bytes_upto(s, k)[i] == oid_byte(s, i),
    decreases k,
{
    if k > 0 {
        lemma_oid_bytes_upto(s, k - 1);
    }
}

/// The canonical hex rendering of a byte sequence.
pub open spec fn hex_render_upto(b: Seq<u8>, k: int) -> Seq<char>
    decreases k,
{
    if k <= 0 {
        Seq::empty()
    } else {
        hex_render_upto(b, k - 1) + seq![
            crate::chars::digit_char((b[k - 1] / 16) as u32),
            crate::chars::digit_char((b[k - 1] % 16) as u32),
        ]
    }
}

/// The canonical 24-hex-digit rendering of an identity's twelve bytes.
pub open spec fn oid_render(b: Seq<u8>) -> Seq<char> {
    hex_render_upto(b, 12)
}

/// `hex_render_upto` has length `2 * k` and holds the digits pointwise.
pub proof fn lemma_hex_render_upto(b: Seq<u8>, k: int)
    requires
        k >= 0,
    ensures
        hex_render_upto(b, k).len() == 2 * k,
        forall|i: int|
            0 <= i < k ==> hex_render_upto(b, k)[2 * i] == crate::chars::digit_char(
                (#[trigger] b[i] / 16) as u32,
            ) && hex_render_upto(b, k)[2 * i + 1] == crate::chars::digit_char((b[i] % 16) as u32),
    decreases k,
{
    if k > 0 {
        lemma_hex_render_upto(b, k - 1);
    }
}

/// `oid_chars_ok` pins the rendering: it is exactly `oid_render`.
pub proof fn lemma_oid_render_unique(b: Seq<u8>, s: Seq<char>)
    requires
        b.len() == 12,
        oid_chars_ok(b, s),
    ensures
        s == oid_render(b),
{
    lemma_hex_render_upto(b, 12);
    assert forall|j: int| 0 <= j < 24 implies s[j] == oid_render(b)[j] by {
        if j % 2 == 0 {
            let i = j / 2;
            assert(j == 2 * i);
            assert(s[2 * i] == crate::chars::digit_char((b[i] / 16) as u32));
            assert(oid_render(b)[2 * i] == crate::chars::digit_char((b[i] / 16) as u32));
        } else {
            let i = j / 2;
            assert(j == 2 * i + 1);
            assert(s[2 * i + 1] == crate::chars::digit_char((b[i] % 16) as u32));
            assert(oid_render(b)[2 * i + 1] == crate::chars::digit_char((b[i] % 16) as u32));
        }
    }
    assert(s =~= oid_render(b));
}

/// A string's canonical form under the storage-boundary coercion: identity
/// strings take their lowercase hex form, instant strings their RFC3339
/// millisecond form, and every other string stands as it is. A plain string
/// that happens to match either grammar is reinterpreted — a documented
/// sharp edge of the coercion, not detected or prevented.
pub open spec fn normal_str(s: Seq<char>) -> Seq<char> {
    if is_oid_str(s) {
        oid_render(oid_bytes(s))
    } else if instant_shape(s) && instant_fields(s).wf() {
        render_millis(instant_fields(s))
    } else {
        s
    }
}

/// A value's canonical form: `normal_str` applied to every string,
/// recursively through arrays and objects; keys stand as they are.
pub open spec fn normal_of(v: Val) -> Val
    decreases v,
{
    match v {
        Val::Null => Val::Null,
        Val::Bool(b) => Val::Bool(b),
        Val::Int(n) => Val::Int(n),
        Val::Str(s) => Val::Str(normal_str(s)),
        Val::Arr(a) => Val::Arr(normal_arr(a)),
        Val::Obj(o) => Val::Obj(normal_fields(o)),
    }
}

/// Canonical forms of the values in a sequence.
pub open spec fn normal_arr(a: Seq<Val>) -> Seq<Val>
    decreases a,
{
    if a.len() == 0 {
        Seq::empty()
    } else {
        normal_arr(a.drop_last()).push(normal_of(a.last()))
    }
}

/// Canonical forms of the values of a field list; keys stand as they are.
pub open spec fn normal_fields(o: Seq<(Seq<char>, Val)>) -> Seq<(Seq<char>, Val)>
    decreases o,
{
    if o.len() == 0 {
        Seq::empty()
    } else {
        normal_fields(o.drop_last()).push((o.last().0, normal_of(o.last().1)))
    }
}

/// `normal_arr` has the length of its argument and normalizes pointwise.
pub broadcast proof fn lemma_normal_arr(a: Seq<Val>)
    ensures
        (#[trigger] normal_arr(a)).len() == a.len(),
        forall|i: int| 0 <= i < a.len() ==> #[trigger] normal_arr(a)[i] == normal_of(a[i]),
    decreases a.len(),
{
    if a.len() > 0 {
        lemma_normal_arr(a.drop_last());
    }
}

/// `normal_fields` has the length of its argument, keeps keys, and
/// normalizes values pointwise.
pub broadcast proof fn lemma_normal_fields(o: Seq<(Seq<char>, Val)>)
    ensures
        (#[trigger] normal_fields(o)).len() == o.len(),
        forall|i: int|
            0 <= i < o.len() ==> #[trigger] normal_fields(o)[i] == (o[i].0, normal_of(o[i].1)),
    decreases o.len(),
{
    if o.len() > 0 {
        lemma_normal_fields(o.drop_last());
    }
}

/// Normalization preserves well-formedness.
pub proof fn lemma_normal_wf(v: Val)
    requires
        val_wf(v),
    ensures
        val_wf(normal_of(v)),
    decreases v,
{
    match v {
        Val::Arr(a) => {
            lemma_normal_arr(a);
            assert forall|i: int| 0 <= i < normal_arr(a).len() implies val_wf(
                #[trigger] normal_arr(a)[i],
            ) by {
                crate::doc::lemma_arr_elem_wf(a, i);
                lemma_normal_wf(a[i]);
            }
        },
        Val::Obj(o) => {
            lemma_normal_fields(o);
            assert forall|a: int, b: int|
                0 <= a < b < normal_fields(o).len() implies #[trigger] normal_fields(
                o,
            )[a].0 != #[trigger] normal_fields(o)[b].0 by {
                assert(o[a].0 != o[b].0);
            }
            assert forall|i: int| 0 <= i < normal_fields(o).len() implies val_wf(
                #[trigger] normal_fields(o)[i].1,
            ) by {
                assert(val_wf(o[i].1));
                lemma_normal_wf(o[i].1);
            }
        },
        _ => {},
    }
}

/// Canonicalize a string at the storage boundary.
fn normalize_string(s: &String) -> (r: String)
    ensures
        r@ == normal_str(s@),
{
    match parse_oid(s.as_str()) {
        Some(o) => {
            let r = oid_hex(&o);
            proof {
                assert(o.bytes@ =~= oid_bytes(s@)) by {
                    lemma_oid_bytes_upto(s@, 12);
                }
                lemma_oid_render_unique(o.bytes@, r@);
            }
            r
        },
        None => {
            match parse_instant(s.as_str()) {
                Some(t) => render_rfc3339_millis(&t),
                None => s.clone(),
            }
        },
    }
}

/// Canonicalize a document at the storage boundary.
pub fn normalize_doc(d: &Doc) -> (r: Doc)
    ensures
        r@ == normal_of(d@),
    decreases d,
{
    match d {
        Doc::Null => Doc::Null,
        Doc::Bool(b) => Doc::Bool(*b),
        Doc::Int(n) => Doc::Int(*n),
        Doc::Str(s) => Doc::Str(normalize_string(s)),
        Doc::Arr(elems) => {
            let mut out: Vec<Doc> = Vec::new();
            let mut i: usize = 0;
            while i < elems.len()
                invariant
                    *d == Doc::Arr(*elems),
                    i <= elems@.len(),
                    out@.len() == i,
                    forall|j: int| 0 <= j < i ==> out@[j]@ == normal_of(#[trigger] elems@[j]@),
                decreases elems@.len() - i,
            {
                proof {
                    crate::doc::lemma_decreases_arr(*d, i as int);
                }
                let c = normalize_doc(&elems[i]);
                out.push(c);
                i += 1;
            }
            let r = Doc::Arr(out);
            proof {
                broadcast use crate::doc::lemma_docs_view;

                lemma_normal_arr(crate::doc::docs_view(elems@));
                assert(crate::doc::docs_view(out@).len() == out@.len());
                assert(crate::doc::docs_view(elems@).len() == elems@.len());
                assert(normal_arr(crate::doc::docs_view(elems@)).len() == elems@.len());
                assert forall|j: int|
                    0 <= j < elems@.len() implies crate::doc::docs_view(out@)[j] == normal_arr(
                    crate::doc::docs_view(elems@),
                )[j] by {
                    assert(crate::doc::docs_view(out@)[j] == out@[j]@);
                    assert(crate::doc::docs_view(elems@)[j] == elems@[j]@);
                    assert(normal_arr(crate::doc::docs_view(elems@))[j] == normal_of(elems@[j]@));
                }
                assert(r@->Arr_0 =~= normal_of(d@)->Arr_0);
            }
            r
        },
        Doc::Obj(obj) => Doc::Obj(normalize_obj(obj)),
    }
}

/// Canonicalize an object at the storage boundary.
pub fn normalize_obj(o: &DocObj) -> (r: DocObj)
    ensures
        r@ == normal_fields(o@),
    decreases o,
{
    let mut out: Vec<(String, Doc)> = Vec::new();
    let mut i: usize = 0;
    while i < o.fields.len()
        invariant
            i <= o.fields@.len(),
            out@.len() == i,
            forall|j: int|
                0 <= j < i ==> out@[j].0@ == #[trigger] o.fields@[j].0@ && out@[j].1@ == normal_of(
                    o.fields@[j].1@,
                ),
        decreases o.fields@.len() - i,
    {
        let k = o.fields[i].0.clone();
        let v = normalize_doc(&o.fields[i].1);
        out.push((k, v));
        i += 1;
    }
    let r = DocObj { fields: out };
    proof {
        lemma_normal_fields(o@);
        assert(o@ == fields_view(o.fields@));
        assert(r@ == fields_view(out@));
        assert forall|j: int|
            0 <= j < o.fields@.len() implies fields_view(out@)[j] == normal_fields(o@)[j] by {
            assert(fields_view(out@)[j] == (out@[j].0@, out@[j].1@));
            assert(o@[j] == (o.fields@[j].0@, o.fields@[j].1@));
            assert(normal_fields(o@)[j] == (o@[j].0, normal_of(o@[j].1)));
        }
        assert(r@ =~= normal_fields(o@));
    }
    r
}

/// The mathematical content of one stored row.
pub ghost struct RowModel {
    pub id: Seq<u8>,
    pub updated: Timestamp,
    pub body: Seq<(Seq<char>, Val)>,
}

/// One row of the store: the key pair and the body, which carries neither
/// `id` nor `updated` (they are demoted into the key on write).
pub struct StoredRow {
    pub id: ObjectId,
    pub updated: Timestamp,
    pub body: DocObj,
}

impl View for StoredRow {
    type V = RowModel;

    open spec fn view(&self) -> RowModel {
        RowModel { id: self.id.bytes@, updated: self.updated, body: self.body@ }
    }
}

/// Views of the rows of a sequence, in order.
pub open spec fn rows_view(s: Seq<StoredRow>) -> Seq<RowModel>
    decreases s,
{
    if s.len() == 0 {
        Seq::empty()
    } else {
        rows_view(s.drop_last()).push(s.last()@)
    }
}

/// `rows_view` has the length of its argument and views it pointwise.
pub broadcast proof fn lemma_rows_view(s: Seq<StoredRow>)
    ensures
        (#[trigger] rows_view(s)).len() == s.len(),
        forall|j: int| 0 <= j < s.len() ==> #[trigger] rows_view(s)[j] == s[j]@,
    decreases s.len(),
{
    if s.len() > 0 {
        lemma_rows_view(s.drop_last());
    }
}

/// A row is well-formed when its key is an identity, its instant is a valid
/// instant, and its body is a well-formed object without `id` or `updated`.
pub open spec fn row_wf(r: RowModel) -> bool {
    r.id.len() == 12 && r.updated.wf() && val_wf(Val::Obj(r.body)) && !obj_has(r.body, "id"@)
        && !obj_has(r.body, "updated"@)
}

/// The append-only, time-versioned object store.
pub struct Store {
    rows: Vec<StoredRow>,
}

impl View for Store {
    type V = Seq<RowModel>;

    closed spec fn view(&self) -> Seq<RowModel> {
        rows_view(self.rows@)
    }
}

/// Index of the row the latest version of `id` lives at, or -1: the row
/// with the greatest `updated` among rows keyed by `id`, the latest written
/// winning a tie.
pub open spec fn latest_index(rows: Seq<RowModel>, id: Seq<u8>) -> int
    decreases rows.len(),
{
    if rows.len() == 0 {
        -1
    } else {
        let r = latest_index(rows.drop_last(), id);
        if rows.last().id == id && (r == -1 || ts_le(rows[r].updated, rows.last().updated)) {
            rows.len() - 1
        } else {
            r
        }
    }
}

/// Index of the row holding the version of `id` current at `t`, or -1: the
/// row with the greatest `updated` at or before `t` among rows keyed by
/// `id`, the latest written winning a tie.
pub open spec fn at_index(rows: Seq<RowModel>, id: Seq<u8>, t: Timestamp) -> int
    decreases rows.len(),
{
    if rows.len() == 0 {
        -1
    } else {
        let r = at_index(rows.drop_last(), id, t);
        if rows.last().id == id && ts_le(rows.last().updated, t) && (r == -1 || ts_le(
            rows[r].updated,
            rows.last().updated,
        )) {
            rows.len() - 1
        } else {
            r
        }
    }
}

/// What `latest_index` points at.
pub proof fn lemma_latest_index(rows: Seq<RowModel>, id: Seq<u8>)
    ensures
        latest_index(rows, id) == -1 ==> forall|j: int|
            0 <= j < rows.len() ==> (#[trigger] rows[j]).id != id,
        latest_index(rows, id) != -1 ==> {
            let r = latest_index(rows, id);
            0 <= r < rows.len() && rows[r].id == id && (forall|j: int|
                0 <= j < rows.len() && (#[trigger] rows[j]).id == id ==> ts_le(
                    rows[j].updated,
                    rows[r].updated,
                )) && (forall|j: int|
                r < j < rows.len() && (#[trigger] rows[j]).id == id ==> ts_lt(
                    rows[j].updated,
                    rows[r].updated,
                ))
        },
    decreases rows.len(),
{
    if rows.len() > 0 {
        let t = rows.drop_last();
        lemma_latest_index(t, id);
        assert forall|j: int| 0 <= j < rows.len() - 1 implies t[j] == rows[j] by {}
        let r0 = latest_index(t, id);
        if r0 != -1 {
            crate::time::lemma_ts_le_order(
                rows[r0].updated,
                rows.last().updated,
                rows.last().updated,
            );
        }
        if latest_index(rows, id) != -1 {
            let r = latest_index(rows, id);
            assert forall|j: int|
                0 <= j < rows.len() && (#[trigger] rows[j]).id == id implies ts_le(
                rows[j].updated,
                rows[r].updated,
            ) by {
                if j < rows.len() - 1 {
                    assert(t[j] == rows[j]);
                    if r == rows.len() - 1 {
                        if r0 != -1 {
                            crate::time::lemma_ts_le_order(
                                rows[j].updated,
                                rows[r0].updated,
                                rows.last().updated,
                            );
                        }
                    }
                } else {
                    if r < rows.len() - 1 {
                        assert(!(r0 == -1 || ts_le(rows[r0].updated, rows.last().updated)));
                        crate::time::lemma_ts_le_order(
                            rows.last().updated,
                            rows[r0].updated,
                            rows[r0].updated,
                        );
                    }
                }
            }
            assert forall|j: int|
                r < j < rows.len() && (#[trigger] rows[j]).id == id implies ts_lt(
                rows[j].updated,
                rows[r].updated,
            ) by {
                if j < rows.len() - 1 {
                    assert(t[j] == rows[j]);
                } else {
                    assert(!(r0 == -1 || ts_le(rows[r0].updated, rows.last().updated)));
                    crate::time::lemma_ts_le_order(
                        rows.last().updated,
                        rows[r].updated,
                        rows[r].updated,
                    );
                }
            }
        }
    }
}

/// What `at_index` points at.
pub proof fn lemma_at_index(rows: Seq<RowModel>, id: Seq<u8>, t: Timestamp)
    ensures
        at_index(rows, id, t) == -1 ==> forall|j: int|
            0 <= j < rows.len() && (#[trigger] rows[j]).id == id ==> !ts_le(rows[j].updated, t),
        at_index(rows, id, t) != -1 ==> {
            let r = at_index(rows, id, t);
            0 <= r < rows.len() && rows[r].id == id && ts_le(rows[r].updated, t) && (forall|j: int|
                0 <= j < rows.len() && (#[trigger] rows[j]).id == id && ts_le(rows[j].updated, t)
                    ==> ts_le(rows[j].updated, rows[r].updated))
        },
    decreases rows.len(),
{
    if rows.len() > 0 {
        let tl = rows.drop_last();
        lemma_at_index(tl, id, t);
        assert forall|j: int| 0 <= j < rows.len() - 1 implies tl[j] == rows[j] by {}
        let r0 = at_index(tl, id, t);
        if at_index(rows, id, t) != -1 {
            let r = at_index(rows, id, t);
            assert forall|j: int|
                0 <= j < rows.len() && (#[trigger] rows[j]).id == id && ts_le(
                    rows[j].updated,
                    t,
                ) implies ts_le(rows[j].updated, rows[r].updated) by {
                if j < rows.len() - 1 {
                    assert(tl[j] == rows[j]);
                    if r == rows.len() - 1 {
                        if r0 != -1 {
                            crate::time::lemma_ts_le_order(
                                rows[j].updated,
                                rows[r0].updated,
                                rows.last().updated,
                            );
                        }
                    }
                } else {
                    if r < rows.len() - 1 {
                        assert(!(r0 == -1 || ts_le(rows[r0].updated, rows.last().updated)));
                        crate::time::lemma_ts_le_order(
                            rows.last().updated,
                            rows[r0].updated,
                            rows[r0].updated,
                        );
                    }
                }
            }
        }
    }
}

/// Whether a stripped document can be keyed for storage: its `id` is an
/// identity string and its `updated` an instant string.
pub open spec fn doc_keyable(d: Seq<(Seq<char>, Val)>) -> bool {
    &&& obj_has(d, "id"@)
    &&& obj_get(d, "id"@) is Str
    &&& is_oid_str(obj_get(d, "id"@)->Str_0)
    &&& obj_has(d, "updated"@)
    &&& obj_get(d, "updated"@) is Str
    &&& instant_shape(obj_get(d, "updated"@)->Str_0)
    &&& instant_fields(obj_get(d, "updated"@)->Str_0).wf()
}

/// The row a keyable document writes: `id` and `updated` demoted into the
/// key, the rest canonicalized.
pub open spec fn row_of_doc(d: Seq<(Seq<char>, Val)>) -> RowModel {
    RowModel {
        id: oid_bytes(obj_get(d, "id"@)->Str_0),
        updated: instant_fields(obj_get(d, "updated"@)->Str_0),
        body: normal_fields(obj_del(obj_del(d, "id"@), "updated"@)),
    }
}

/// A stored row restored to wire shape: the key pair reinstated as ordinary
/// `id` and `updated` fields in canonical string form.
pub open spec fn restore(r: RowModel) -> Seq<(Seq<char>, Val)> {
    obj_set(
        obj_set(r.body, "id"@, Val::Str(oid_render(r.id))),
        "updated"@,
        Val::Str(render_millis(r.updated)),
    )
}

impl Store {
    /// Every row of the store is well-formed.
    pub open spec fn wf(&self) -> bool {
        forall|i: int| 0 <= i < self@.len() ==> row_wf(#[trigger] self@[i])
    }

    /// An empty store.
    pub fn new() -> (r: Store)
        ensures
            r@ =~= Seq::<RowModel>::empty(),
            r.wf(),
    {
        let r = Store { rows: Vec::new() };
        proof {
            lemma_rows_view(r.rows@);
        }
        r
    }

    /// Number of rows ever written.
    pub fn len(&self) -> (n: usize)
        ensures
            n == self@.len(),
    {
        proof {
            lemma_rows_view(self.rows@);
        }
        self.rows.len()
    }

    /// Write a new row: the document's `id` and `updated` fields are demoted
    /// into the key, the rest of the body is canonicalized and appended. No
    /// colliding key is detected or rejected: every write is a new row. A
    /// document whose `id` is not an identity string or whose `updated` is
    /// not an instant cannot be keyed and is refused.
    pub fn put(&mut self, doc: &DocObj) -> (r: Result<(), Error>)
        requires
            old(self).wf(),
            doc.wf(),
        ensures
            r is Ok <==> obj_has(doc@, "id"@) && obj_get(doc@, "id"@) is Str && is_oid_str(
                obj_get(doc@, "id"@)->Str_0,
            ) && obj_has(doc@, "updated"@) && obj_get(doc@, "updated"@) is Str && instant_shape(
                obj_get(doc@, "updated"@)->Str_0,
            ) && instant_fields(obj_get(doc@, "updated"@)->Str_0).wf(),
            match r {
                Ok(()) => {
                    let s_id = obj_get(doc@, "id"@)->Str_0;
                    let s_up = obj_get(doc@, "updated"@)->Str_0;
                    final(self)@ =~= old(self)@.push(
                        RowModel {
                            id: oid_bytes(s_id),
                            updated: instant_fields(s_up),
                            body: normal_fields(obj_del(obj_del(doc@, "id"@), "updated"@)),
                        },
                    )
                },
                Err(e) => e == Error::Internal && final(self)@ == old(self)@,
            },
            final(self).wf(),
    {
        let id: ObjectId = match doc.get("id") {
            Some(Doc::Str(s)) => match parse_oid(s.as_str()) {
                Some(o) => o,
                None => {
                    return Err(Error::Internal);
                },
            },
            _ => {
                return Err(Error::Internal);
            },
        };
        let updated: Timestamp = match doc.get("updated") {
            Some(Doc::Str(s)) => match parse_instant(s.as_str()) {
                Some(t) => t,
                None => {
                    return Err(Error::Internal);
                },
            },
            _ => {
                return Err(Error::Internal);
            },
        };
        let mut body = doc.deep_copy();
        proof {
            assert(val_wf(Val::Obj(body@)));
        }
        body.remove("id");
        proof {
            crate::doc::lemma_obj_wf_set_del(doc@, "id"@, Val::Null);
        }
        body.remove("updated");
        proof {
            crate::doc::lemma_obj_wf_set_del(obj_del(doc@, "id"@), "updated"@, Val::Null);
        }
        let body = normalize_obj(&body);
        let ghost prerows = self.rows@;
        let row = StoredRow { id, updated, body };
        proof {
            assert(row@.id =~= oid_bytes(obj_get(doc@, "id"@)->Str_0)) by {
                lemma_oid_bytes_upto(obj_get(doc@, "id"@)->Str_0, 12);
            }
            lemma_normal_wf(Val::Obj(obj_del(obj_del(doc@, "id"@), "updated"@)));
            lemma_normal_fields(obj_del(obj_del(doc@, "id"@), "updated"@));
            lemma_obj_del_props(doc@, "id"@);
            lemma_obj_del_props(obj_del(doc@, "id"@), "updated"@);
            assert(row_wf(row@));
        }
        self.rows.push(row);
        proof {
            lemma_rows_view(self.rows@);
            lemma_rows_view(prerows);
            assert(self@ =~= rows_view(prerows).push(row@));
            assert forall|i: int| 0 <= i < self@.len() implies row_wf(#[trigger] self@[i]) by {
                if i < old(self)@.len() {
                    assert(self@[i] == old(self)@[i]);
                }
            }
        }
        Ok(())
    }

    /// The latest version of `id`, restored to wire shape; nothing when no
    /// version of `id` was ever written.
    pub fn get(&self, id: &ObjectId) -> (r: Option<DocObj>)
        requires
            self.wf(),
        ensures
            match r {
                Some(doc) => latest_index(self@, id.bytes@) != -1 && doc@ == restore(
                    self@[latest_index(self@, id.bytes@)],
                ) && doc.wf(),
                None => latest_index(self@, id.bytes@) == -1,
            },
    {
        proof {
            lemma_rows_view(self.rows@);
            lemma_latest_index(self@, id.bytes@);
        }
        let mut best: Option<usize> = None;
        let n = self.rows.len();
        let mut i: usize = 0;
        while i < n
            invariant
                self.wf(),
                n == self.rows@.len(),
                n == self@.len(),
                i <= n,
                forall|j: int| 0 <= j < n ==> #[trigger] self@[j] == self.rows@[j]@,
                match best {
                    Some(b) => b < i && latest_index(self@.subrange(0, i as int), id.bytes@)
                        == b as int,
                    None => latest_index(self@.subrange(0, i as int), id.bytes@) == -1,
                },
            decreases n - i,
        {
            proof {
                assert(self@.subrange(0, i + 1).drop_last() =~= self@.subrange(0, i as int));
                assert(self@.subrange(0, i + 1).last() == self@[i as int]);
            }
            if oid_eq(&self.rows[i].id, id) {
                let take = match best {
                    None => true,
                    Some(b) => self.rows[b].updated.le(&self.rows[i].updated),
                };
                if take {
                    best = Some(i);
                }
            }
            i += 1;
        }
        proof {
            assert(self@.subrange(0, n as int) =~= self@);
        }
        match best {
            Some(b) => {
                let row = &self.rows[b];
                let mut out = row.body.deep_copy();
                proof {
                    assert(row_wf(self@[b as int]));
                    assert(val_wf(Val::Obj(out@)));
                    lemma_obj_set_props(out@, "id"@, Val::Str(oid_render(row.id.bytes@)));
                    crate::doc::lemma_obj_wf_set_del(
                        out@,
                        "id"@,
                        Val::Str(oid_render(row.id.bytes@)),
                    );
                }
                let id_str = oid_hex(&row.id);
                proof {
                    lemma_oid_render_unique(row.id.bytes@, id_str@);
                }
                out.insert(String::from_str("id"), Doc::Str(id_str));
                proof {
                    crate::doc::lemma_obj_wf_set_del(
                        out@,
                        "updated"@,
                        Val::Str(render_millis(row.updated)),
                    );
                }
                let up_str = render_rfc3339_millis(&row.updated);
                out.insert(String::from_str("updated"), Doc::Str(up_str));
                Some(out)
            },
            None => None,
        }
    }

    /// The version of `id` current at `time`, restored to wire shape;
    /// nothing when no version of `id` existed at or before `time`.
    pub fn get_record(&self, id: &ObjectId, time: &Timestamp) -> (r: Option<DocObj>)
        requires
            self.wf(),
        ensures
            match r {
                Some(doc) => at_index(self@, id.bytes@, *time) != -1 && doc@ == restore(
                    self@[at_index(self@, id.bytes@, *time)],
                ) && doc.wf(),
                None => at_index(self@, id.bytes@, *time) == -1,
            },
    {
        proof {
            lemma_rows_view(self.rows@);
        }
        let mut best: Option<usize> = None;
        let n = self.rows.len();
        let mut i: usize = 0;
        while i < n
            invariant
                self.wf(),
                n == self.rows@.len(),
                n == self@.len(),
                i <= n,
                forall|j: int| 0 <= j < n ==> #[trigger] self@[j] == self.rows@[j]@,
                match best {
                    Some(b) => b < i && at_index(self@.subrange(0, i as int), id.bytes@, *time)
                        == b as int,
                    None => at_index(self@.subrange(0, i as int), id.bytes@, *time) == -1,
                },
            decreases n - i,
        {
            proof {
                assert(self@.subrange(0, i + 1).drop_last() =~= self@.subrange(0, i as int));
                assert(self@.subrange(0, i + 1).last() == self@[i as int]);
            }
            if oid_eq(&self.rows[i].id, id) && self.rows[i].updated.le(time) {
                let take = match best {
                    None => true,
                    Some(b) => self.rows[b].updated.le(&self.rows[i].updated),
                };
                if take {
                    best = Some(i);
                }
            }
            i += 1;
        }
        proof {
            assert(self@.subrange(0, n as int) =~= self@);
        }
        match best {
            Some(b) => {
                let row = &self.rows[b];
                let mut out = row.body.deep_copy();
                proof {
                    assert(row_wf(self@[b as int]));
                    assert(val_wf(Val::Obj(out@)));
                    lemma_obj_set_props(out@, "id"@, Val::Str(oid_render(row.id.bytes@)));
                    crate::doc::lemma_obj_wf_set_del(
                        out@,
                        "id"@,
                        Val::Str(oid_render(row.id.bytes@)),
                    );
                }
                let id_str = oid_hex(&row.id);
                proof {
                    lemma_oid_render_unique(row.id.bytes@, id_str@);
                }
                out.insert(String::from_str("id"), Doc::Str(id_str));
                proof {
                    crate::doc::lemma_obj_wf_set_del(
                        out@,
                        "updated"@,
                        Val::Str(render_millis(row.updated)),
                    );
                }
                let up_str = render_rfc3339_millis(&row.updated);
                out.insert(String::from_str("updated"), Doc::Str(up_str));
                Some(out)
            },
            None => None,
        }
    }
}

/// A query at or after the latest version of `id` yields that latest
/// version, and a query before the earliest version of `id` yields nothing.
pub proof fn lemma_time_travel(rows: Seq<RowModel>, id: Seq<u8>, t: Timestamp)
    ensures
        latest_index(rows, id) != -1 && ts_le(rows[latest_index(rows, id)].updated, t)
            ==> at_index(rows, id, t) == latest_index(rows, id),
        (forall|j: int|
            0 <= j < rows.len() && (#[trigger] rows[j]).id == id ==> ts_lt(t, rows[j].updated))
            ==> at_index(rows, id, t) == -1,
    decreases rows.len(),
{
    if rows.len() > 0 {
        let tl = rows.drop_last();
        lemma_time_travel(tl, id, t);
        lemma_latest_index(rows, id);
        lemma_latest_index(tl, id);
        lemma_at_index(rows, id, t);
        lemma_at_index(tl, id, t);
        assert forall|j: int| 0 <= j < rows.len() - 1 implies tl[j] == rows[j] by {}
        if latest_index(rows, id) != -1 && ts_le(rows[latest_index(rows, id)].updated, t) {
            let l = latest_index(rows, id);
            let l0 = latest_index(tl, id);
            if l == rows.len() - 1 {
                if l0 != -1 {
                    crate::time::lemma_ts_le_order(rows[l0].updated, rows[l].updated, t);
                }
            } else {
                assert(l == l0);
                if rows.last().id == id {
                    crate::time::lemma_ts_le_order(rows.last().updated, rows[l].updated, t);
                }
            }
        }
        if forall|j: int|
            0 <= j < rows.len() && (#[trigger] rows[j]).id == id ==> ts_lt(t, rows[j].updated) {
            assert forall|j: int|
                0 <= j < tl.len() && (#[trigger] tl[j]).id == id implies ts_lt(
                t,
                tl[j].updated,
            ) by {
                assert(tl[j] == rows[j]);
            }
            if rows.last().id == id {
                crate::time::lemma_ts_le_order(rows.last().updated, t, t);
            }
        }
    }
}


/// The current-version rows whose body carries `rel` equal to the
/// identity's canonical string, among the first `k` rows, in store order. A
/// row is current when it is the latest version of its own identity.
pub open spec fn matching_upto(
    rows: Seq<RowModel>,
    rel: Seq<char>,
    id: Seq<u8>,
    k: int,
) -> Seq<RowModel>
    decreases k,
{
    if k <= 0 {
        Seq::empty()
    } else {
        let prev = matching_upto(rows, rel, id, k - 1);
        if row_matches(rows[k - 1], rel, id) && latest_index(rows, rows[k - 1].id) == k - 1 {
            prev.push(rows[k - 1])
        } else {
            prev
        }
    }
}

/// The current-version rows whose body carries `rel` equal to the
/// identity's canonical string, in store order.
pub open spec fn matching_rows(rows: Seq<RowModel>, rel: Seq<char>, id: Seq<u8>) -> Seq<RowModel> {
    matching_upto(rows, rel, id, rows.len() as int)
}

/// Whether a row's body carries `rel` equal to the identity's canonical
/// string rendering. The field itself must equal the identity; entries
/// inside arrays do not count.
pub open spec fn row_matches(r: RowModel, rel: Seq<char>, id: Seq<u8>) -> bool {
    obj_has(r.body, rel) && obj_get(r.body, rel) == Val::Str(oid_render(id))
}

/// A row inserted into a sorted sequence after every row at or before its
/// instant, keeping earlier rows' order.
pub open spec fn insert_sorted(s: Seq<RowModel>, r: RowModel) -> Seq<RowModel>
    decreases s,
{
    if s.len() == 0 {
        seq![r]
    } else if ts_le(s.last().updated, r.updated) {
        s.push(r)
    } else {
        insert_sorted(s.drop_last(), r).push(s.last())
    }
}

/// Rows sorted ascending by instant, ties keeping store order.
pub open spec fn sort_rows(s: Seq<RowModel>) -> Seq<RowModel>
    decreases s,
{
    if s.len() == 0 {
        Seq::empty()
    } else {
        insert_sorted(sort_rows(s.drop_last()), s.last())
    }
}

impl Store {
    /// Whether the row at `i` is the current version of its own identity.
    #[verifier::loop_isolation(false)]
    fn is_current(&self, i: usize) -> (r: bool)
        requires
            self.wf(),
            i < self@.len(),
        ensures
            r == (latest_index(self@, self@[i as int].id) == i as int),
    {
        proof {
            lemma_rows_view(self.rows@);
            lemma_latest_index(self@, self@[i as int].id);
        }
        let n = self.rows.len();
        let mut j: usize = 0;
        while j < n
            invariant
                n == self.rows@.len(),
                n == self@.len(),
                i < n,
                j <= n,
                forall|x: int| 0 <= x < n ==> #[trigger] self@[x] == self.rows@[x]@,
                forall|x: int|
                    0 <= x < j && x < i && (#[trigger] self@[x]).id == self@[i as int].id
                        ==> ts_le(self@[x].updated, self@[i as int].updated),
                forall|x: int|
                    i < x < j && (#[trigger] self@[x]).id == self@[i as int].id ==> ts_lt(
                        self@[x].updated,
                        self@[i as int].updated,
                    ),
            decreases n - j,
        {
            if j != i && oid_eq(&self.rows[j].id, &self.rows[i].id) {
                if j < i {
                    if !self.rows[j].updated.le(&self.rows[i].updated) {
                        proof {
                            assert((self@[j as int]).id == self@[i as int].id);
                            if latest_index(self@, self@[i as int].id) == i as int {
                                assert(ts_le(self@[j as int].updated, self@[i as int].updated));
                            }
                        }
                        return false;
                    }
                } else {
                    if !self.rows[j].updated.lt(&self.rows[i].updated) {
                        proof {
                            assert((self@[j as int]).id == self@[i as int].id);
                            if latest_index(self@, self@[i as int].id) == i as int {
                                assert(ts_lt(self@[j as int].updated, self@[i as int].updated));
                            }
                        }
                        return false;
                    }
                }
            }
            j += 1;
        }
        proof {
            let l = latest_index(self@, self@[i as int].id);
            if l != i as int {
                assert(self@[i as int].id == self@[i as int].id);
                assert(l != -1);
                if l < i as int {
                    assert(ts_lt(self@[i as int].updated, self@[l].updated));
                    assert(ts_le(self@[l].updated, self@[i as int].updated));
                    crate::time::lemma_ts_le_order(
                        self@[l].updated,
                        self@[i as int].updated,
                        self@[l].updated,
                    );
                } else {
                    assert(self@[l].id == self@[i as int].id);
                    assert(ts_lt(self@[l].updated, self@[i as int].updated));
                    assert(ts_le(self@[i as int].updated, self@[l].updated));
                    crate::time::lemma_ts_le_order(
                        self@[l].updated,
                        self@[i as int].updated,
                        self@[l].updated,
                    );
                }
            }
        }
        true
    }

    /// The current-version rows whose body carries `rel` equal to `id`,
    /// restored to wire shape, ascending by `updated`, ties in write order.
    #[verifier::loop_isolation(false)]
    #[verifier::rlimit(100)]
    pub fn get_filtered(&self, rel: &str, id: &ObjectId) -> (r: Vec<DocObj>)
        requires
            self.wf(),
            id.wf(),
        ensures
            r@.len() == sort_rows(matching_rows(self@, rel@, id.bytes@)).len(),
            forall|k: int|
                0 <= k < r@.len() ==> #[trigger] r@[k]@ == restore(
                    sort_rows(matching_rows(self@, rel@, id.bytes@))[k],
                ) && r@[k].wf(),
    {
        proof {
            lemma_rows_view(self.rows@);
        }
        let idstr = oid_hex(id);
        proof {
            lemma_oid_render_unique(id.bytes@, idstr@);
        }
        let n = self.rows.len();
        let mut sel: Vec<(Timestamp, DocObj)> = Vec::new();
        let ghost mut selrows: Seq<RowModel> = Seq::empty();
        let mut i: usize = 0;
        while i < n
            invariant
                n == self.rows@.len(),
                n == self@.len(),
                i <= n,
                idstr@ == oid_render(id.bytes@),
                forall|j: int| 0 <= j < n ==> #[trigger] self@[j] == self.rows@[j]@,
                selrows == matching_upto(self@, rel@, id.bytes@, i as int),
                sel@.len() == selrows.len(),
                forall|k: int|
                    0 <= k < sel@.len() ==> (#[trigger] sel@[k]).0 == selrows[k].updated
                        && sel@[k].1@ == restore(selrows[k]) && sel@[k].1.wf() && row_wf(
                        selrows[k],
                    ),
            decreases n - i,
        {
            proof {
                assert(row_wf(self@[i as int]));
            }
            let row = &self.rows[i];
            let hit = match row.body.get(rel) {
                Some(Doc::Str(s)) => crate::chars::str_eq(s.as_str(), idstr.as_str()),
                _ => false,
            };
            proof {
                assert(hit == row_matches(self@[i as int], rel@, id.bytes@));
            }
            let current = if hit {
                self.is_current(i)
            } else {
                false
            };
            if hit && current {
                let doc = restore_row(row);
                sel.push((row.updated, doc));
                proof {
                    selrows = selrows.push(self@[i as int]);
                }
            }
            i += 1;
        }
        let m = sel.len();
        let mut out: Vec<(Timestamp, DocObj)> = Vec::new();
        let ghost mut outrows: Seq<RowModel> = Seq::empty();
        let mut i: usize = 0;
        while i < m
            invariant
                m == sel@.len(),
                i <= m,
                selrows.len() == m,
                forall|k: int|
                    0 <= k < m ==> (#[trigger] sel@[k]).0 == selrows[k].updated && sel@[k].1@
                        == restore(selrows[k]) && sel@[k].1.wf(),
                outrows == sort_rows(selrows.subrange(0, i as int)),
                out@.len() == outrows.len(),
                forall|k: int|
                    0 <= k < out@.len() ==> (#[trigger] out@[k]).0 == outrows[k].updated
                        && out@[k].1@ == restore(outrows[k]) && out@[k].1.wf(),
            decreases m - i,
        {
            proof {
                assert(selrows.subrange(0, i + 1).drop_last() =~= selrows.subrange(0, i as int));
                assert(selrows.subrange(0, i + 1).last() == selrows[i as int]);
            }
            let ghost target = insert_sorted(outrows, selrows[i as int]);
            proof {
                assert(outrows.subrange(0, out@.len() as int) =~= outrows);
                assert(outrows.subrange(out@.len() as int, outrows.len() as int).len() == 0);
                assert(target =~= insert_sorted(outrows.subrange(0, out@.len() as int), selrows[i as int])
                    + outrows.subrange(out@.len() as int, outrows.len() as int));
            }
            let mut p = out.len();
            while p > 0
                invariant
                    p <= out@.len(),
                    out@.len() == outrows.len(),
                    forall|k: int|
                        0 <= k < out@.len() ==> (#[trigger] out@[k]).0 == outrows[k].updated,
                    target == insert_sorted(outrows.subrange(0, p as int), selrows[i as int])
                        + outrows.subrange(p as int, outrows.len() as int),
                decreases p,
            {
                if out[p - 1].0.le(&sel[i].0) {
                    break ;
                }
                proof {
                    let pre = outrows.subrange(0, p as int);
                    assert(pre.last() == outrows[p - 1]);
                    assert(pre.drop_last() =~= outrows.subrange(0, p - 1));
                    assert(insert_sorted(pre, selrows[i as int]) == insert_sorted(
                        pre.drop_last(),
                        selrows[i as int],
                    ).push(pre.last()));
                    assert(insert_sorted(outrows.subrange(0, p - 1), selrows[i as int]).push(
                        outrows[p - 1],
                    ) + outrows.subrange(p as int, outrows.len() as int) =~= insert_sorted(
                        outrows.subrange(0, p - 1),
                        selrows[i as int],
                    ) + outrows.subrange(p - 1, outrows.len() as int));
                }
                p -= 1;
            }
            proof {
                let pre = outrows.subrange(0, p as int);
                if p > 0 {
                    assert(pre.last() == outrows[p - 1]);
                    assert(ts_le(outrows[p - 1].updated, selrows[i as int].updated));
                    assert(insert_sorted(pre, selrows[i as int]) == pre.push(selrows[i as int]));
                } else {
                    assert(pre.len() == 0);
                    assert(insert_sorted(pre, selrows[i as int]) =~= seq![selrows[i as int]]);
                }
                assert(target =~= outrows.insert(p as int, selrows[i as int])) by {
                    assert(pre.push(selrows[i as int]) =~= pre + seq![selrows[i as int]]);
                    assert(target == pre.push(selrows[i as int]) + outrows.subrange(
                        p as int,
                        outrows.len() as int,
                    ));
                    assert(outrows.insert(p as int, selrows[i as int]) =~= pre + seq![
                        selrows[i as int]] + outrows.subrange(p as int, outrows.len() as int));
                }
            }
            let ts_i = sel[i].0;
            let doc_i = sel[i].1.deep_copy();
            let ghost oldout = out@;
            let ghost oldrows = outrows;
            out.insert(p, (ts_i, doc_i));
            proof {
                outrows = target;
                assert(out@ == oldout.insert(p as int, (ts_i, doc_i)));
                assert forall|k: int|
                    0 <= k < out@.len() implies (#[trigger] out@[k]).0 == outrows[k].updated
                    && out@[k].1@ == restore(outrows[k]) && out@[k].1.wf() by {
                    if k < p {
                        assert(out@[k] == oldout[k]);
                        assert(outrows[k] == oldrows[k]);
                    } else if k == p {
                        assert(out@[k] == (ts_i, doc_i));
                        assert(outrows[k] == selrows[i as int]);
                    } else {
                        assert(out@[k] == oldout[k - 1]);
                        assert(outrows[k] == oldrows[k - 1]);
                    }
                }
            }
            i += 1;
        }
        proof {
            assert(selrows.subrange(0, m as int) =~= selrows);
        }
        let mut docs: Vec<DocObj> = Vec::new();
        let k = out.len();
        let mut i: usize = 0;
        while i < k
            invariant
                k == out@.len(),
                i <= k,
                docs@.len() == i,
                outrows == sort_rows(selrows),
                out@.len() == outrows.len(),
                forall|x: int|
                    0 <= x < out@.len() ==> (#[trigger] out@[x]).1@ == restore(outrows[x])
                        && out@[x].1.wf(),
                forall|x: int|
                    0 <= x < i ==> #[trigger] docs@[x]@ == restore(outrows[x]) && docs@[x].wf(),
            decreases k - i,
        {
            let d = out[i].1.deep_copy();
            docs.push(d);
            i += 1;
        }
        docs
    }

    /// Rows answering a reply listing: those whose `inReplyTo` names `id`.
    pub fn get_replies(&self, id: &ObjectId) -> (r: Vec<DocObj>)
        requires
            self.wf(),
            id.wf(),
        ensures
            r@.len() == sort_rows(matching_rows(self@, "inReplyTo"@, id.bytes@)).len(),
            forall|k: int|
                0 <= k < r@.len() ==> #[trigger] r@[k]@ == restore(
                    sort_rows(matching_rows(self@, "inReplyTo"@, id.bytes@))[k],
                ) && r@[k].wf(),
    {
        self.get_filtered("inReplyTo", id)
    }

    /// Rows answering a child listing: those whose `context` names `id`.
    pub fn get_children(&self, id: &ObjectId) -> (r: Vec<DocObj>)
        requires
            self.wf(),
            id.wf(),
        ensures
            r@.len() == sort_rows(matching_rows(self@, "context"@, id.bytes@)).len(),
            forall|k: int|
                0 <= k < r@.len() ==> #[trigger] r@[k]@ == restore(
                    sort_rows(matching_rows(self@, "context"@, id.bytes@))[k],
                ) && r@[k].wf(),
    {
        self.get_filtered("context", id)
    }
}

/// Restore one row to wire shape.
fn restore_row(row: &StoredRow) -> (r: DocObj)
    requires
        row_wf(row@),
    ensures
        r@ == restore(row@),
        r.wf(),
{
    let mut out = row.body.deep_copy();
    proof {
        assert(val_wf(Val::Obj(out@)));
        lemma_obj_set_props(out@, "id"@, Val::Str(oid_render(row.id.bytes@)));
        crate::doc::lemma_obj_wf_set_del(out@, "id"@, Val::Str(oid_render(row.id.bytes@)));
    }
    let id_str = oid_hex(&row.id);
    proof {
        lemma_oid_render_unique(row.id.bytes@, id_str@);
    }
    out.insert(String::from_str("id"), Doc::Str(id_str));
    proof {
        crate::doc::lemma_obj_wf_set_del(out@, "updated"@, Val::Str(render_millis(row.updated)));
    }
    let up_str = render_rfc3339_millis(&row.updated);
    out.insert(String::from_str("updated"), Doc::Str(up_str));
    out
}

/// A write whose instant is at or after every version of its identity
/// becomes the latest version.
pub proof fn lemma_latest_after_push(rows: Seq<RowModel>, r: RowModel, id: Seq<u8>)
    requires
        r.id == id,
        forall|j: int|
            0 <= j < rows.len() && (#[trigger] rows[j]).id == id ==> ts_le(
                rows[j].updated,
                r.updated,
            ),
    ensures
        latest_index(rows.push(r), id) == rows.len(),
    decreases rows.len(),
{
    let rs = rows.push(r);
    assert(rs.drop_last() =~= rows);
    assert(rs.last() == r);
    lemma_latest_index(rows, id);
    let prev = latest_index(rows, id);
    if prev != -1 {
        assert(ts_le(rows[prev].updated, r.updated));
    }
}

/// A write after `t` leaves the version current at `t` alone.
pub proof fn lemma_at_unchanged_by_later_push(
    rows: Seq<RowModel>,
    r: RowModel,
    id: Seq<u8>,
    t: Timestamp,
)
    requires
        !ts_le(r.updated, t),
    ensures
        at_index(rows.push(r), id, t) == at_index(rows, id, t),
{
    let rs = rows.push(r);
    assert(rs.drop_last() =~= rows);
    assert(rs.last() == r);
}


/// The canonical form of a string is already canonical.
pub proof fn lemma_normal_str_idempotent(s: Seq<char>)
    ensures
        normal_str(normal_str(s)) == normal_str(s),
{
    if is_oid_str(s) {
        let b = oid_bytes(s);
        lemma_oid_bytes_upto(s, 12);
        lemma_hex_render_upto(b, 12);
        let out = oid_render(b);
        assert(oid_chars_ok(b, out));
        lemma_oid_roundtrip(b, out);
        assert(oid_bytes(out) =~= b) by {
            lemma_oid_bytes_upto(out, 12);
        }
    } else if instant_shape(s) && instant_fields(s).wf() {
        let t = instant_fields(s);
        let out = render_millis(t);
        crate::time::lemma_render_roundtrip(t);
        assert(!is_oid_str(out)) by {
            assert(out[4] == '-');
            assert(!crate::chars::is_hex_digit('-'));
        }
    }
}

/// The storage-boundary coercion is idempotent: canonicalizing a value a
/// second time changes nothing, so what a read renders is exactly what a
/// rewrite would store.
pub proof fn lemma_normal_idempotent(v: Val)
    ensures
        normal_of(normal_of(v)) == normal_of(v),
    decreases v,
{
    match v {
        Val::Str(s) => {
            lemma_normal_str_idempotent(s);
        },
        Val::Arr(a) => {
            lemma_normal_arr(a);
            lemma_normal_arr(normal_arr(a));
            assert forall|i: int|
                0 <= i < normal_arr(a).len() implies #[trigger] normal_arr(normal_arr(a))[i]
                == normal_arr(a)[i] by {
                lemma_normal_idempotent(a[i]);
            }
            assert(normal_arr(normal_arr(a)) =~= normal_arr(a));
        },
        Val::Obj(o) => {
            lemma_normal_fields(o);
            lemma_normal_fields(normal_fields(o));
            assert forall|i: int|
                0 <= i < normal_fields(o).len() implies #[trigger] normal_fields(
                normal_fields(o),
            )[i] == normal_fields(o)[i] by {
                lemma_normal_idempotent(o[i].1);
            }
            assert(normal_fields(normal_fields(o)) =~= normal_fields(o));
        },
        _ => {},
    }
}

} // verus!
