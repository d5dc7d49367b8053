//! The document model: a recursive JSON-like value, its mathematical view,
//! well-formedness, and structural equality (order-insensitive on objects,
//! order-sensitive on arrays).

use vstd::prelude::*;

use crate::chars::str_eq;

verus! {

broadcast use vstd::std_specs::vec::group_vec_axioms;

/// Mathematical value of a document: null, boolean, integer, string,
/// ordered array, or insertion-ordered string-keyed mapping.
#[verifier::ext_equal]
pub enum Val {
    Null,
    Bool(bool),
    Int(i64),
    Str(Seq<char>),
    Arr(Seq<Val>),
    Obj(Seq<(Seq<char>, Val)>),
}

/// A document value.
pub enum Doc {
    Null,
    Bool(bool),
    Int(i64),
    Str(String),
    Arr(Vec<Doc>),
    Obj(DocObj),
}

/// An insertion-ordered string-keyed mapping of documents.
pub struct DocObj {
    pub fields: Vec<(String, Doc)>,
}

/// Views of the documents in a sequence, in order.
pub open spec fn docs_view(s: Seq<Doc>) -> Seq<Val>
    decreases s,
{
    if s.len() == 0 {
        Seq::empty()
    } else {
        docs_view(s.drop_last()).push(s.last()@)
    }
}

/// Views of the key/document pairs in a sequence, in order.
pub open spec fn fields_view(s: Seq<(String, Doc)>) -> Seq<(Seq<char>, Val)>
    decreases s,
{
    if s.len() == 0 {
        Seq::empty()
    } else {
        fields_view(s.drop_last()).push((s.last().0@, s.last().1@))
    }
}

impl View for Doc {
    type V = Val;

    open spec fn view(&self) -> Val
        decreases self,
    {
        match self {
            Doc::Null => Val::Null,
            Doc::Bool(b) => Val::Bool(*b),
            Doc::Int(n) => Val::Int(*n),
            Doc::Str(s) => Val::Str(s@),
            Doc::Arr(elems) => Val::Arr(docs_view(elems@)),
            Doc::Obj(obj) => Val::Obj(obj@),
        }
    }
}

impl View for DocObj {
    type V = Seq<(Seq<char>, Val)>;

    open spec fn view(&self) -> Seq<(Seq<char>, Val)>
        decreases self,
    {
        fields_view(self.fields@)
    }
}

/// `docs_view` has the length of its argument and views it pointwise.
pub broadcast proof fn lemma_docs_view(s: Seq<Doc>)
    ensures
        (#[trigger] docs_view(s)).len() == s.len(),
        forall|j: int| 0 <= j < s.len() ==> #[trigger] docs_view(s)[j] == s[j]@,
    decreases s.len(),
{
    if s.len() > 0 {
        lemma_docs_view(s.drop_last());
        assert(docs_view(s) == docs_view(s.drop_last()).push(s.last()@));
        assert forall|j: int| 0 <= j < s.len() implies #[trigger] docs_view(s)[j] == s[j]@ by {
            if j < s.len() - 1 {
                assert(docs_view(s)[j] == docs_view(s.drop_last())[j]);
                assert(s.drop_last()[j] == s[j]);
            } else {
                assert(s.last() == s[j]);
            }
        }
    }
}

/// `fields_view` has the length of its argument and views it pointwise.
pub broadcast proof fn lemma_fields_view(s: Seq<(String, Doc)>)
    ensures
        (#[trigger] fields_view(s)).len() == s.len(),
        forall|j: int| 0 <= j < s.len() ==> #[trigger] fields_view(s)[j] == (s[j].0@, s[j].1@),
    decreases s.len(),
{
    if s.len() > 0 {
        lemma_fields_view(s.drop_last());
        assert(fields_view(s) == fields_view(s.drop_last()).push((s.last().0@, s.last().1@)));
        assert forall|j: int|
            0 <= j < s.len() implies #[trigger] fields_view(s)[j] == (s[j].0@, s[j].1@) by {
            if j < s.len() - 1 {
                assert(fields_view(s)[j] == fields_view(s.drop_last())[j]);
                assert(s.drop_last()[j] == s[j]);
            } else {
                assert(s.last() == s[j]);
            }
        }
    }
}

/// All keys of an object's field list are distinct.
pub open spec fn keys_unique(fields: Seq<(Seq<char>, Val)>) -> bool {
    forall|i: int, j: int| 0 <= i < j < fields.len() ==> fields[i].0 != fields[j].0
}

/// Whether the field list carries `key`.
pub open spec fn obj_has(fields: Seq<(Seq<char>, Val)>, key: Seq<char>) -> bool {
    exists|i: int| 0 <= i < fields.len() && fields[i].0 == key
}

/// The index at which `key` appears (meaningful when `obj_has` holds; with
/// unique keys it is the only such index).
pub open spec fn obj_index_of(fields: Seq<(Seq<char>, Val)>, key: Seq<char>) -> int {
    choose|i: int| 0 <= i < fields.len() && fields[i].0 == key
}

/// The value carried under `key` (meaningful when `obj_has` holds).
pub open spec fn obj_get(fields: Seq<(Seq<char>, Val)>, key: Seq<char>) -> Val {
    fields[obj_index_of(fields, key)].1
}

/// Field list after setting `key` to `value`: an existing key keeps its
/// position and takes the new value; a fresh key is appended.
pub open spec fn obj_set(
    fields: Seq<(Seq<char>, Val)>,
    key: Seq<char>,
    value: Val,
) -> Seq<(Seq<char>, Val)> {
    if obj_has(fields, key) {
        fields.update(obj_index_of(fields, key), (key, value))
    } else {
        fields.push((key, value))
    }
}

/// Field list after deleting `key`, later entries shifting up.
pub open spec fn obj_del(fields: Seq<(Seq<char>, Val)>, key: Seq<char>) -> Seq<(Seq<char>, Val)> {
    if obj_has(fields, key) {
        fields.remove(obj_index_of(fields, key))
    } else {
        fields
    }
}

/// Well-formedness: object keys are distinct, recursively.
pub open spec fn val_wf(v: Val) -> bool
    decreases v,
{
    match v {
        Val::Arr(elems) => forall|i: int| 0 <= i < elems.len() ==> val_wf(#[trigger] elems[i]),
        Val::Obj(fields) => keys_unique(fields) && forall|i: int|
            0 <= i < fields.len() ==> val_wf(#[trigger] fields[i].1),
        _ => true,
    }
}

/// Structural equality of document values: arrays compare element by element
/// in order; objects compare as mappings, ignoring field order.
pub open spec fn equiv(a: Val, b: Val) -> bool
    decreases a,
{
    match (a, b) {
        (Val::Null, Val::Null) => true,
        (Val::Bool(x), Val::Bool(y)) => x == y,
        (Val::Int(x), Val::Int(y)) => x == y,
        (Val::Str(x), Val::Str(y)) => x == y,
        (Val::Arr(x), Val::Arr(y)) => x.len() == y.len() && forall|i: int|
            0 <= i < x.len() ==> equiv(#[trigger] x[i], y[i]),
        (Val::Obj(x), Val::Obj(y)) => x.len() == y.len() && forall|i: int|
            0 <= i < x.len() ==> obj_has(y, #[trigger] x[i].0) && equiv(x[i].1, obj_get(y, x[i].0)),
        _ => false,
    }
}

/// A document decreases to each element of its array variant.
pub proof fn lemma_decreases_arr(d: Doc, i: int)
    requires
        d is Arr,
        0 <= i < d->Arr_0@.len(),
    ensures
        decreases_to!(d => d->Arr_0@[i]),
{
    assert(decreases_to!(d => d->Arr_0));
    assert(decreases_to!(d->Arr_0 => d->Arr_0@));
    assert(decreases_to!(d->Arr_0@ => d->Arr_0@[i]));
}

/// A document decreases to each field value of its object variant.
pub proof fn lemma_decreases_obj(d: Doc, i: int)
    requires
        d is Obj,
        0 <= i < d->Obj_0.fields@.len(),
    ensures
        decreases_to!(d => d->Obj_0.fields@[i].1),
{
    assert(decreases_to!(d => d->Obj_0));
    assert(decreases_to!(d->Obj_0 => d->Obj_0.fields));
    assert(decreases_to!(d->Obj_0.fields => d->Obj_0.fields@));
    assert(decreases_to!(d->Obj_0.fields@ => d->Obj_0.fields@[i]));
    assert(decreases_to!(d->Obj_0.fields@[i] => d->Obj_0.fields@[i].1));
}

impl Doc {
    /// Well-formedness of this document.
    pub open spec fn wf(&self) -> bool {
        val_wf(self@)
    }

    /// The object under this document, when it is one.
    pub fn as_obj<'a>(&'a self) -> (r: Option<&'a DocObj>)
        ensures
            match r {
                Some(o) => self@ == Val::Obj(o@) && (self@ is Obj),
                None => !(self@ is Obj),
            },
    {
        match self {
            Doc::Obj(o) => Some(o),
            _ => None,
        }
    }

    /// The array under this document, when it is one.
    pub fn as_arr<'a>(&'a self) -> (r: Option<&'a Vec<Doc>>)
        ensures
            match r {
                Some(a) => self@ is Arr && self@->Arr_0 == docs_view(a@),
                None => !(self@ is Arr),
            },
    {
        match self {
            Doc::Arr(a) => Some(a),
            _ => None,
        }
    }

    /// The string under this document, when it is one.
    pub fn as_str<'a>(&'a self) -> (r: Option<&'a String>)
        ensures
            match r {
                Some(s) => self@ == Val::Str(s@),
                None => !(self@ is Str),
            },
    {
        match self {
            Doc::Str(s) => Some(s),
            _ => None,
        }
    }

    /// Whether this document is null.
    pub fn is_null(&self) -> (r: bool)
        ensures
            r == (self@ is Null),
    {
        match self {
            Doc::Null => true,
            _ => false,
        }
    }

    /// Structural equality: arrays in order, objects as mappings.
    #[verifier::loop_isolation(false)]
    pub fn deep_eq(&self, other: &Doc) -> (r: bool)
        requires
            self.wf(),
            other.wf(),
        ensures
            r == equiv(self@, other@),
        decreases self,
    {
        match (self, other) {
            (Doc::Null, Doc::Null) => true,
            (Doc::Bool(x), Doc::Bool(y)) => *x == *y,
            (Doc::Int(x), Doc::Int(y)) => *x == *y,
            (Doc::Str(x), Doc::Str(y)) => str_eq(x.as_str(), y.as_str()),
            (Doc::Arr(x), Doc::Arr(y)) => {
                proof {
                    lemma_docs_view(x@);
                    lemma_docs_view(y@);
                }
                if x.len() != y.len() {
                    return false;
                }
                let mut i: usize = 0;
                while i < x.len()
                    invariant
                        *self == Doc::Arr(*x),
                        *other == Doc::Arr(*y),
                        self.wf(),
                        other.wf(),
                        x@.len() == y@.len(),
                        i <= x@.len(),
                        forall|j: int| 0 <= j < i ==> equiv(#[trigger] x@[j]@, y@[j]@),
                    decreases x@.len() - i,
                {
                    proof {
                        lemma_decreases_arr(*self, i as int);
                        assert(val_wf(self@->Arr_0[i as int]));
                        assert(val_wf(other@->Arr_0[i as int]));
                    }
                    if !x[i].deep_eq(&y[i]) {
                        proof {
                            assert(!equiv(self@->Arr_0[i as int], other@->Arr_0[i as int]));
                            assert(!equiv(self@, other@));
                        }
                        return false;
                    }
                    i += 1;
                }
                proof {
                    assert forall|j: int| 0 <= j < self@->Arr_0.len() implies equiv(
                        #[trigger] self@->Arr_0[j],
                        other@->Arr_0[j],
                    ) by {
                        assert(equiv(x@[j]@, y@[j]@));
                    }
                    assert(equiv(self@, other@));
                }
                true
            },
            (Doc::Obj(x), Doc::Obj(y)) => {
                proof {
                    lemma_fields_view(x.fields@);
                    lemma_fields_view(y.fields@);
                }
                if x.fields.len() != y.fields.len() {
                    return false;
                }
                let mut i: usize = 0;
                while i < x.fields.len()
                    invariant
                        *self == Doc::Obj(*x),
                        *other == Doc::Obj(*y),
                        self.wf(),
                        other.wf(),
                        x@.len() == y@.len(),
                        x@.len() == x.fields@.len(),
                        y@.len() == y.fields@.len(),
                        i <= x@.len(),
                        forall|j: int| 0 <= j < i ==> obj_has(y@, #[trigger] x@[j].0) && equiv(
                            x@[j].1,
                            obj_get(y@, x@[j].0),
                        ),
                    decreases x@.len() - i,
                {
                    proof {
                        assert(keys_unique(y@));
                        assert(x@[i as int].0 == x.fields@[i as int].0@);
                    }
                    let w = y.get(x.fields[i].0.as_str());
                    match w {
                        None => {
                            proof {
                                assert(!obj_has(y@, x@[i as int].0));
                                assert(!equiv(self@, other@));
                            }
                            return false;
                        },
                        Some(w) => {
                            proof {
                                lemma_decreases_obj(*self, i as int);
                                assert(val_wf(x@[i as int].1));
                                let k = obj_index_of(y@, x@[i as int].0);
                                assert(0 <= k < y@.len() && y@[k].0 == x@[i as int].0);
                                assert(val_wf(y@[k].1));
                                assert(x@[i as int].1 == x.fields@[i as int].1@);
                            }
                            if !x.fields[i].1.deep_eq(w) {
                                proof {
                                    assert(!equiv(x@[i as int].1, obj_get(y@, x@[i as int].0)));
                                    assert(!equiv(self@, other@));
                                }
                                return false;
                            }
                        },
                    }
                    i += 1;
                }
                proof {
                    assert(equiv(self@, other@));
                }
                true
            },
            _ => {
                proof {
                    assert(!equiv(self@, other@));
                }
                false
            },
        }
    }

    /// A structurally equal copy.
    #[verifier::loop_isolation(false)]
    pub fn deep_copy(&self) -> (r: Doc)
        ensures
            r@ == self@,
        decreases self,
    {
        match self {
            Doc::Null => Doc::Null,
            Doc::Bool(b) => Doc::Bool(*b),
            Doc::Int(n) => Doc::Int(*n),
            Doc::Str(s) => Doc::Str(s.clone()),
            Doc::Arr(elems) => {
                let mut out: Vec<Doc> = Vec::new();
                let mut i: usize = 0;
                while i < elems.len()
                    invariant
                        *self == Doc::Arr(*elems),
                        i <= elems@.len(),
                        out@.len() == i,
                        forall|j: int| 0 <= j < i ==> out@[j]@ == #[trigger] elems@[j]@,
                    decreases elems@.len() - i,
                {
                    proof {
                        lemma_decreases_arr(*self, i as int);
                    }
                    let c = elems[i].deep_copy();
                    out.push(c);
                    i += 1;
                }
                let r = Doc::Arr(out);
                proof {
                    lemma_docs_view(out@);
                    lemma_docs_view(elems@);
                    assert forall|j: int|
                        0 <= j < elems@.len() implies docs_view(out@)[j] == docs_view(elems@)[j] by {
                        assert(out@[j]@ == elems@[j]@);
                    }
                    assert(r@->Arr_0 =~= self@->Arr_0);
                    assert(r@ == self@);
                }
                r
            },
            Doc::Obj(obj) => Doc::Obj(obj.deep_copy()),
        }
    }
}

impl DocObj {
    /// Well-formedness of this object: distinct keys, recursively.
    pub open spec fn wf(&self) -> bool {
        val_wf(Val::Obj(self@))
    }

    /// An empty object.
    pub fn new() -> (r: DocObj)
        ensures
            r@ =~= Seq::<(Seq<char>, Val)>::empty(),
    {
        DocObj { fields: Vec::new() }
    }

    /// Number of fields.
    pub fn len(&self) -> (n: usize)
        ensures
            n == self@.len(),
    {
        proof {
            lemma_fields_view(self.fields@);
        }
        self.fields.len()
    }

    /// The value under `key`, when present.
    #[verifier::loop_isolation(false)]
    pub fn get<'a>(&'a self, key: &str) -> (r: Option<&'a Doc>)
        requires
            keys_unique(self@),
        ensures
            match r {
                Some(d) => obj_has(self@, key@) && d@ == obj_get(self@, key@),
                None => !obj_has(self@, key@),
            },
    {
        proof {
            lemma_fields_view(self.fields@);
        }
        let mut i: usize = 0;
        while i < self.fields.len()
            invariant
                keys_unique(self@),
                i <= self.fields@.len(),
                self@.len() == self.fields@.len(),
                forall|j: int| 0 <= j < i ==> #[trigger] self@[j].0 != key@,
            decreases self.fields@.len() - i,
        {
            if str_eq(self.fields[i].0.as_str(), key) {
                proof {
                    assert(self@[i as int].0 == key@);
                    assert(obj_has(self@, key@));
                    let k = obj_index_of(self@, key@);
                    assert(0 <= k < self@.len() && self@[k].0 == key@);
                    assert(k == i as int);
                }
                return Some(&self.fields[i].1);
            }
            i += 1;
        }
        None
    }

    /// Whether `key` is present.
    pub fn contains_key(&self, key: &str) -> (r: bool)
        requires
            keys_unique(self@),
        ensures
            r == obj_has(self@, key@),
    {
        match self.get(key) {
            Some(_) => true,
            None => false,
        }
    }

    /// Set `key` to `value`: an existing key keeps its position and takes the
    /// new value; a fresh key is appended.
    #[verifier::loop_isolation(false)]
    pub fn insert(&mut self, key: String, value: Doc)
        requires
            keys_unique(old(self)@),
        ensures
            final(self)@ == obj_set(old(self)@, key@, value@),
            keys_unique(final(self)@),
            final(self)@.len() == if obj_has(old(self)@, key@) {
                old(self)@.len()
            } else {
                old(self)@.len() + 1
            },
    {
        proof {
            lemma_fields_view(self.fields@);
        }
        let mut i: usize = 0;
        let n = self.fields.len();
        while i < n
            invariant
                keys_unique(self@),
                *self == *old(self),
                n == self.fields@.len(),
                i <= n,
                self@.len() == self.fields@.len(),
                forall|j: int| 0 <= j < i ==> #[trigger] self@[j].0 != key@,
            decreases n - i,
        {
            if str_eq(self.fields[i].0.as_str(), key.as_str()) {
                proof {
                    assert(self@[i as int].0 == key@);
                    assert(obj_has(self@, key@));
                    let k = obj_index_of(self@, key@);
                    assert(0 <= k < self@.len() && self@[k].0 == key@);
                    assert(k == i as int);
                }
                self.fields[i] = (key, value);
                proof {
                    lemma_fields_view(self.fields@);
                    assert forall|j: int|
                        0 <= j < self@.len() implies self@[j] == obj_set(old(self)@, key@, value@)[j] by {
                        if j == i as int {
                            assert(self.fields@[j] == (key, value));
                        } else {
                            assert(self.fields@[j] == old(self).fields@[j]);
                        }
                    }
                    assert(self@ =~= obj_set(old(self)@, key@, value@));
                    assert forall|a: int, b: int|
                        0 <= a < b < self@.len() implies #[trigger] self@[a].0 != #[trigger] self@[b].0 by {
                        assert(old(self)@[a].0 != old(self)@[b].0);
                    }
                }
                return ;
            }
            i += 1;
        }
        self.fields.push((key, value));
        proof {
            lemma_fields_view(self.fields@);
            assert(!obj_has(old(self)@, key@));
            assert forall|j: int|
                0 <= j < self@.len() implies self@[j] == obj_set(old(self)@, key@, value@)[j] by {
                if j < old(self).fields@.len() {
                    assert(self.fields@[j] == old(self).fields@[j]);
                } else {
                    assert(self.fields@[j] == (key, value));
                }
            }
            assert(self@ =~= obj_set(old(self)@, key@, value@));
            assert forall|a: int, b: int|
                0 <= a < b < self@.len() implies #[trigger] self@[a].0 != #[trigger] self@[b].0 by {
                if b < old(self)@.len() {
                    assert(old(self)@[a].0 != old(self)@[b].0);
                } else {
                    assert(self@[b].0 == key@);
                    assert(old(self)@[a].0 != key@);
                }
            }
        }
    }

    /// Delete `key`, later fields shifting up; the removed value comes back.
    #[verifier::loop_isolation(false)]
    pub fn remove(&mut self, key: &str) -> (r: Option<Doc>)
        requires
            keys_unique(old(self)@),
        ensures
            final(self)@ == obj_del(old(self)@, key@),
            keys_unique(final(self)@),
            r is Some <==> obj_has(old(self)@, key@),
            r is Some ==> r->0@ == obj_get(old(self)@, key@),
    {
        proof {
            lemma_fields_view(self.fields@);
        }
        let mut i: usize = 0;
        let n = self.fields.len();
        while i < n
            invariant
                keys_unique(self@),
                *self == *old(self),
                n == self.fields@.len(),
                i <= n,
                self@.len() == self.fields@.len(),
                forall|j: int| 0 <= j < i ==> #[trigger] self@[j].0 != key@,
            decreases n - i,
        {
            if str_eq(self.fields[i].0.as_str(), key) {
                proof {
                    assert(self@[i as int].0 == key@);
                    assert(obj_has(self@, key@));
                    let k = obj_index_of(self@, key@);
                    assert(0 <= k < self@.len() && self@[k].0 == key@);
                    assert(k == i as int);
                }
                let entry = self.fields.remove(i);
                proof {
                    lemma_fields_view(self.fields@);
                    assert forall|j: int|
                        0 <= j < self@.len() implies self@[j] == obj_del(old(self)@, key@)[j] by {
                        if j < i as int {
                            assert(self.fields@[j] == old(self).fields@[j]);
                        } else {
                            assert(self.fields@[j] == old(self).fields@[j + 1]);
                        }
                    }
                    assert(self@ =~= obj_del(old(self)@, key@));
                    assert forall|a: int, b: int|
                        0 <= a < b < self@.len() implies #[trigger] self@[a].0 != #[trigger] self@[b].0 by {
                        let a0 = if a < i as int {
                            a
                        } else {
                            a + 1
                        };
                        let b0 = if b < i as int {
                            b
                        } else {
                            b + 1
                        };
                        assert(old(self)@[a0].0 != old(self)@[b0].0);
                    }
                }
                return Some(entry.1);
            }
            i += 1;
        }
        None
    }

    /// A structurally equal copy.
    #[verifier::loop_isolation(false)]
    pub fn deep_copy(&self) -> (r: DocObj)
        ensures
            r@ == self@,
        decreases self,
    {
        let mut out: Vec<(String, Doc)> = Vec::new();
        let mut i: usize = 0;
        while i < self.fields.len()
            invariant
                i <= self.fields@.len(),
                out@.len() == i,
                forall|j: int| 0 <= j < i ==> out@[j].0@ == #[trigger] self.fields@[j].0@
                    && out@[j].1@ == self.fields@[j].1@,
            decreases self.fields@.len() - i,
        {
            let k = self.fields[i].0.clone();
            let v = self.fields[i].1.deep_copy();
            out.push((k, v));
            i += 1;
        }
        let r = DocObj { fields: out };
        proof {
            lemma_fields_view(out@);
            lemma_fields_view(self.fields@);
            assert forall|j: int|
                0 <= j < self.fields@.len() implies fields_view(out@)[j] == fields_view(
                self.fields@,
            )[j] by {
                assert(out@[j].0@ == self.fields@[j].0@ && out@[j].1@ == self.fields@[j].1@);
            }
            assert(r@ =~= self@);
        }
        r
    }
}


/// `obj_set` keeps keys unique, binds `key` to `value`, and leaves every
/// other key and its value alone.
pub proof fn lemma_obj_set_props(o: Seq<(Seq<char>, Val)>, k: Seq<char>, v: Val)
    requires
        keys_unique(o),
    ensures
        keys_unique(obj_set(o, k, v)),
        obj_has(obj_set(o, k, v), k),
        obj_get(obj_set(o, k, v), k) == v,
        obj_set(o, k, v).len() == if obj_has(o, k) {
            o.len()
        } else {
            o.len() + 1
        },
        forall|k2: Seq<char>|
            k2 != k ==> #[trigger] obj_has(obj_set(o, k, v), k2) == obj_has(o, k2),
        forall|k2: Seq<char>|
            k2 != k && obj_has(o, k2) ==> #[trigger] obj_get(obj_set(o, k, v), k2) == obj_get(
                o,
                k2,
            ),
{
    let u = obj_set(o, k, v);
    if obj_has(o, k) {
        let i0 = obj_index_of(o, k);
        assert(0 <= i0 < o.len() && o[i0].0 == k);
        assert(u == o.update(i0, (k, v)));
        assert forall|j: int| 0 <= j < u.len() implies #[trigger] u[j].0 == o[j].0 by {}
        assert(u[i0].0 == k);
        assert(obj_has(u, k));
        let j0 = obj_index_of(u, k);
        assert(0 <= j0 < u.len() && u[j0].0 == k);
        assert(j0 == i0);
        assert forall|k2: Seq<char>| k2 != k implies #[trigger] obj_has(u, k2) == obj_has(
            o,
            k2,
        ) by {
            if obj_has(u, k2) {
                let j = obj_index_of(u, k2);
                assert(o[j].0 == k2);
            }
            if obj_has(o, k2) {
                let j = obj_index_of(o, k2);
                assert(u[j].0 == k2);
            }
        }
        assert forall|k2: Seq<char>|
            k2 != k && obj_has(o, k2) implies #[trigger] obj_get(u, k2) == obj_get(o, k2) by {
            let j = obj_index_of(o, k2);
            assert(u[j].0 == k2);
            assert(obj_has(u, k2));
            let j2 = obj_index_of(u, k2);
            assert(o[j2].0 == k2);
            assert(j2 == j);
            assert(j != i0);
        }
    } else {
        assert(u == o.push((k, v)));
        assert forall|a: int, b: int|
            0 <= a < b < u.len() implies #[trigger] u[a].0 != #[trigger] u[b].0 by {
            if b < o.len() {
                assert(u[a].0 == o[a].0 && u[b].0 == o[b].0);
            } else {
                assert(u[b].0 == k);
                assert(u[a].0 == o[a].0);
                assert(!(o[a].0 == k));
            }
        }
        assert(u[o.len() as int].0 == k);
        assert(obj_has(u, k));
        let j0 = obj_index_of(u, k);
        assert(0 <= j0 < u.len() && u[j0].0 == k);
        assert(j0 == o.len()) by {
            if j0 < o.len() {
                assert(o[j0].0 == k);
            }
        }
        assert forall|k2: Seq<char>| k2 != k implies #[trigger] obj_has(u, k2) == obj_has(
            o,
            k2,
        ) by {
            if obj_has(u, k2) {
                let j = obj_index_of(u, k2);
                assert(j < o.len());
                assert(o[j].0 == k2);
            }
            if obj_has(o, k2) {
                let j = obj_index_of(o, k2);
                assert(u[j].0 == k2);
            }
        }
        assert forall|k2: Seq<char>|
            k2 != k && obj_has(o, k2) implies #[trigger] obj_get(u, k2) == obj_get(o, k2) by {
            let j = obj_index_of(o, k2);
            assert(u[j].0 == k2);
            assert(obj_has(u, k2));
            let j2 = obj_index_of(u, k2);
            assert(j2 < o.len() && o[j2].0 == k2);
            assert(j2 == j);
        }
    }
}

/// `obj_del` keeps keys unique, drops `key`, and leaves every other key and
/// its value alone.
pub proof fn lemma_obj_del_props(o: Seq<(Seq<char>, Val)>, k: Seq<char>)
    requires
        keys_unique(o),
    ensures
        keys_unique(obj_del(o, k)),
        !obj_has(obj_del(o, k), k),
        obj_del(o, k).len() == if obj_has(o, k) {
            o.len() - 1
        } else {
            o.len() as int
        },
        forall|k2: Seq<char>| k2 != k ==> #[trigger] obj_has(obj_del(o, k), k2) == obj_has(o, k2),
        forall|k2: Seq<char>|
            k2 != k && obj_has(o, k2) ==> #[trigger] obj_get(obj_del(o, k), k2) == obj_get(o, k2),
{
    let u = obj_del(o, k);
    if obj_has(o, k) {
        let i0 = obj_index_of(o, k);
        assert(0 <= i0 < o.len() && o[i0].0 == k);
        assert(u == o.remove(i0));
        assert forall|j: int| 0 <= j < u.len() implies #[trigger] u[j] == o[if j < i0 {
            j
        } else {
            j + 1
        }] by {}
        assert forall|a: int, b: int|
            0 <= a < b < u.len() implies #[trigger] u[a].0 != #[trigger] u[b].0 by {
            let a0 = if a < i0 {
                a
            } else {
                a + 1
            };
            let b0 = if b < i0 {
                b
            } else {
                b + 1
            };
            assert(o[a0].0 != o[b0].0);
        }
        assert forall|j: int| 0 <= j < u.len() implies #[trigger] u[j].0 != k by {
            let j0 = if j < i0 {
                j
            } else {
                j + 1
            };
            assert(j0 != i0);
            assert(o[j0].0 != o[i0].0);
        }
        assert forall|k2: Seq<char>| k2 != k implies #[trigger] obj_has(u, k2) == obj_has(
            o,
            k2,
        ) by {
            if obj_has(u, k2) {
                let j = obj_index_of(u, k2);
                let j0 = if j < i0 {
                    j
                } else {
                    j + 1
                };
                assert(o[j0].0 == k2);
            }
            if obj_has(o, k2) {
                let j = obj_index_of(o, k2);
                assert(j != i0);
                if j < i0 {
                    assert(u[j].0 == k2);
                } else {
                    assert(u[j - 1].0 == k2);
                }
            }
        }
        assert forall|k2: Seq<char>|
            k2 != k && obj_has(o, k2) implies #[trigger] obj_get(u, k2) == obj_get(o, k2) by {
            let j = obj_index_of(o, k2);
            assert(j != i0);
            let ju = if j < i0 {
                j
            } else {
                j - 1
            };
            assert(u[ju].0 == k2);
            assert(obj_has(u, k2));
            let j2 = obj_index_of(u, k2);
            let j20 = if j2 < i0 {
                j2
            } else {
                j2 + 1
            };
            assert(o[j20].0 == k2);
            assert(j20 == j);
            assert(u[j2] == o[j]);
        }
    }
}

/// A well-formed object is well-formed after `obj_set` with a well-formed
/// value, and after `obj_del`.
pub proof fn lemma_obj_wf_set_del(o: Seq<(Seq<char>, Val)>, k: Seq<char>, v: Val)
    requires
        val_wf(Val::Obj(o)),
        val_wf(v),
    ensures
        val_wf(Val::Obj(obj_set(o, k, v))),
        val_wf(Val::Obj(obj_del(o, k))),
{
    lemma_obj_set_props(o, k, v);
    lemma_obj_del_props(o, k);
    let u = obj_set(o, k, v);
    if obj_has(o, k) {
        let i0 = obj_index_of(o, k);
        assert forall|i: int| 0 <= i < u.len() implies val_wf(#[trigger] u[i].1) by {
            if i != i0 {
                assert(u[i].1 == o[i].1);
                assert(val_wf(o[i].1));
            }
        }
    } else {
        assert forall|i: int| 0 <= i < u.len() implies val_wf(#[trigger] u[i].1) by {
            if i < o.len() {
                assert(u[i].1 == o[i].1);
                assert(val_wf(o[i].1));
            }
        }
    }
    let w = obj_del(o, k);
    if obj_has(o, k) {
        let i0 = obj_index_of(o, k);
        assert forall|i: int| 0 <= i < w.len() implies val_wf(#[trigger] w[i].1) by {
            let j = if i < i0 {
                i
            } else {
                i + 1
            };
            assert(w[i].1 == o[j].1);
            assert(val_wf(o[j].1));
        }
    }
}

/// An element of a well-formed array value is well-formed.
pub proof fn lemma_arr_elem_wf(elems: Seq<Val>, i: int)
    requires
        val_wf(Val::Arr(elems)),
        0 <= i < elems.len(),
    ensures
        val_wf(elems[i]),
{
    let e2 = Val::Arr(elems)->Arr_0;
    assert(e2 == elems);
    assert(val_wf(e2[i]));
}

/// The value under a key of a well-formed object is well-formed.
pub proof fn lemma_obj_get_wf(o: Seq<(Seq<char>, Val)>, k: Seq<char>)
    requires
        val_wf(Val::Obj(o)),
        obj_has(o, k),
    ensures
        val_wf(obj_get(o, k)),
{
    let j = obj_index_of(o, k);
    assert(0 <= j < o.len());
    assert(val_wf(o[j].1));
}

/// Structural equality is reflexive on well-formed values.
pub proof fn lemma_equiv_reflexive(v: Val)
    requires
        val_wf(v),
    ensures
        equiv(v, v),
    decreases v,
{
    match v {
        Val::Arr(x) => {
            assert forall|i: int| 0 <= i < x.len() implies equiv(#[trigger] x[i], x[i]) by {
                lemma_equiv_reflexive(x[i]);
            }
        },
        Val::Obj(x) => {
            assert forall|i: int|
                0 <= i < x.len() implies obj_has(x, #[trigger] x[i].0) && equiv(
                x[i].1,
                obj_get(x, x[i].0),
            ) by {
                assert(obj_has(x, x[i].0));
                let j = obj_index_of(x, x[i].0);
                assert(0 <= j < x.len() && x[j].0 == x[i].0);
                assert(j == i);
                lemma_equiv_reflexive(x[i].1);
            }
        },
        _ => {},
    }
}

} // verus!
