//! Content negotiation: deciding from the `Accept` or `Content-Type` header
//! whether a request speaks ActivityPub.

use vstd::prelude::*;
use vstd::string::*;

use crate::chars::str_eq;

verus! {

/// The request methods the guarded routes distinguish.
#[derive(PartialEq, Eq, Structural, Clone, Copy, Debug)]
pub enum Method {
    Get,
    Post,
    Other,
}

/// What the library reads of a request: its method and the two negotiated
/// headers, when present.
pub struct RequestHead {
    pub method: Method,
    pub accept: Option<String>,
    pub content_type: Option<String>,
}

/// Index of the first occurrence of `c` in `s`, or -1 when absent.
pub open spec fn first_index_of(s: Seq<char>, c: char) -> int
    decreases s.len(),
{
    if s.len() == 0 {
        -1
    } else if s[0] == c {
        0
    } else {
        let r = first_index_of(s.drop_first(), c);
        if r == -1 {
            -1
        } else {
            r + 1
        }
    }
}

/// What `first_index_of` returns: the occurrence, with none before it.
pub proof fn lemma_first_index_of(s: Seq<char>, c: char)
    ensures
        first_index_of(s, c) == -1 ==> forall|j: int| 0 <= j < s.len() ==> s[j] != c,
        first_index_of(s, c) != -1 ==> 0 <= first_index_of(s, c) < s.len() && s[first_index_of(
            s,
            c,
        )] == c && forall|j: int| 0 <= j < first_index_of(s, c) ==> s[j] != c,
    decreases s.len(),
{
    if s.len() > 0 && s[0] != c {
        let t = s.drop_first();
        lemma_first_index_of(t, c);
        assert forall|j: int| 1 <= j < s.len() implies t[j - 1] == s[j] by {}
    }
}

/// Count of leading spaces.
pub open spec fn lead_spaces(s: Seq<char>) -> int
    decreases s.len(),
{
    if s.len() == 0 || s[0] != ' ' {
        0
    } else {
        1 + lead_spaces(s.drop_first())
    }
}

/// Count of trailing spaces.
pub open spec fn trail_spaces(s: Seq<char>) -> int
    decreases s.len(),
{
    if s.len() == 0 || s.last() != ' ' {
        0
    } else {
        1 + trail_spaces(s.drop_last())
    }
}

/// `s` with leading and trailing spaces removed.
pub open spec fn trim_of(s: Seq<char>) -> Seq<char> {
    if lead_spaces(s) == s.len() {
        Seq::empty()
    } else {
        s.subrange(lead_spaces(s), s.len() - trail_spaces(s))
    }
}

/// Bounds and content of the leading-space count.
pub proof fn lemma_lead_spaces(s: Seq<char>)
    ensures
        0 <= lead_spaces(s) <= s.len(),
        forall|j: int| 0 <= j < lead_spaces(s) ==> s[j] == ' ',
        lead_spaces(s) < s.len() ==> s[lead_spaces(s)] != ' ',
    decreases s.len(),
{
    if s.len() > 0 && s[0] == ' ' {
        let t = s.drop_first();
        lemma_lead_spaces(t);
        assert forall|j: int| 1 <= j < s.len() implies t[j - 1] == s[j] by {}
    }
}

/// Bounds and content of the trailing-space count.
pub proof fn lemma_trail_spaces(s: Seq<char>)
    ensures
        0 <= trail_spaces(s) <= s.len(),
        forall|j: int| s.len() - trail_spaces(s) <= j < s.len() ==> s[j] == ' ',
        trail_spaces(s) < s.len() ==> s[s.len() - trail_spaces(s) - 1] != ' ',
    decreases s.len(),
{
    if s.len() > 0 && s.last() == ' ' {
        let t = s.drop_last();
        lemma_trail_spaces(t);
        assert forall|j: int| 0 <= j < s.len() - 1 implies t[j] == s[j] by {}
    }
}

/// When every character is a space, the whole string is leading spaces.
pub proof fn lemma_all_spaces(s: Seq<char>)
    requires
        forall|j: int| 0 <= j < s.len() ==> s[j] == ' ',
    ensures
        lead_spaces(s) == s.len(),
    decreases s.len(),
{
    if s.len() > 0 {
        lemma_all_spaces(s.drop_first());
    }
}

/// Find the first occurrence of `c`, scanned from the front.
pub fn ffind_char(s: &str, c: char) -> (r: Option<usize>)
    ensures
        match r {
            Some(i) => i == first_index_of(s@, c),
            None => first_index_of(s@, c) == -1,
        },
{
    let n = s.unicode_len();
    let mut i: usize = 0;
    while i < n
        invariant
            n == s@.len(),
            i <= n,
            forall|j: int| 0 <= j < i ==> s@[j] != c,
        decreases n - i,
    {
        if s.get_char(i) == c {
            proof {
                lemma_first_index_of(s@, c);
                let l = first_index_of(s@, c);
                if l == -1 {
                    assert(s@[i as int] != c);
                }
                assert(l == i as int);
            }
            return Some(i);
        }
        i += 1;
    }
    proof {
        lemma_first_index_of(s@, c);
        let l = first_index_of(s@, c);
        if l != -1 {
            assert(s@[l] != c);
        }
    }
    None
}

/// `s` with surrounding spaces removed.
pub fn trim_str<'a>(s: &'a str) -> (r: &'a str)
    ensures
        r@ == trim_of(s@),
{
    let n = s.unicode_len();
    let mut a: usize = 0;
    while a < n && s.get_char(a) == ' '
        invariant
            n == s@.len(),
            a <= n,
            forall|j: int| 0 <= j < a ==> s@[j] == ' ',
        decreases n - a,
    {
        a += 1;
    }
    if a == n {
        proof {
            lemma_all_spaces(s@);
        }
        return s.substring_char(n, n);
    }
    let mut b: usize = n;
    while b > 0 && s.get_char(b - 1) == ' '
        invariant
            n == s@.len(),
            b <= n,
            forall|j: int| b <= j < n ==> s@[j] == ' ',
        decreases b,
    {
        b -= 1;
    }
    proof {
        lemma_lead_spaces(s@);
        lemma_trail_spaces(s@);
        assert(lead_spaces(s@) == a as int);
        assert(trail_spaces(s@) == n - b);
        assert(a < n);
        assert(b > a);
    }
    s.substring_char(a, b)
}

/// The ActivityStreams namespace IRI, which a `profile` parameter names to
/// opt into ActivityPub handling of `application/ld+json`.
pub open spec fn as_iri() -> Seq<char> {
    "https://www.w3.org/ns/activitystreams"@
}

/// Whether any space-separated token of a profile value is the
/// ActivityStreams IRI.
pub open spec fn profile_has_iri(v: Seq<char>) -> bool
    decreases v.len(),
{
    let sp = first_index_of(v, ' ');
    if !(0 <= sp < v.len()) {
        v == as_iri()
    } else {
        v.subrange(0, sp) == as_iri() || profile_has_iri(v.subrange(sp + 1, v.len() as int))
    }
}

/// A parameter's quoted or bare value.
pub open spec fn unquote(v: Seq<char>) -> Seq<char> {
    if v.len() >= 2 && v[0] == '"' && v.last() == '"' {
        v.subrange(1, v.len() - 1)
    } else {
        v
    }
}

/// Whether a trimmed parameter is a `profile` parameter naming the
/// ActivityStreams IRI among its tokens.
pub open spec fn param_is_as_profile(p: Seq<char>) -> bool {
    p.len() >= 8 && p.subrange(0, 8) == "profile="@ && profile_has_iri(
        unquote(p.subrange(8, p.len() as int)),
    )
}

/// Whether any `;`-separated parameter opts into ActivityPub.
pub open spec fn params_have_as_profile(s: Seq<char>) -> bool
    decreases s.len(),
{
    let sc = first_index_of(s, ';');
    if !(0 <= sc < s.len()) {
        param_is_as_profile(trim_of(s))
    } else {
        param_is_as_profile(trim_of(s.subrange(0, sc))) || params_have_as_profile(
            s.subrange(sc + 1, s.len() as int),
        )
    }
}

/// Whether one listed media type is an ActivityPub type: exactly
/// `application/activity+json`, or `application/ld+json` with an opting-in
/// `profile` parameter.
pub open spec fn media_item_is_ap(item: Seq<char>) -> bool {
    let t = trim_of(item);
    let sc = first_index_of(t, ';');
    if !(0 <= sc < t.len()) {
        t == "application/activity+json"@
    } else {
        let e = trim_of(t.subrange(0, sc));
        e == "application/activity+json"@ || (e == "application/ld+json"@
            && params_have_as_profile(t.subrange(sc + 1, t.len() as int)))
    }
}

/// Whether any comma-separated media type of a header is an ActivityPub type.
pub open spec fn header_is_ap(s: Seq<char>) -> bool
    decreases s.len(),
{
    let c = first_index_of(s, ',');
    if !(0 <= c < s.len()) {
        media_item_is_ap(s)
    } else {
        media_item_is_ap(s.subrange(0, c)) || header_is_ap(s.subrange(c + 1, s.len() as int))
    }
}

/// Whether the whole request is an ActivityPub request: for GET the `Accept`
/// header decides, for POST the `Content-Type` header; anything else is not.
pub open spec fn request_is_ap(head: RequestHead) -> bool {
    match head.method {
        Method::Get => match head.accept {
            Some(s) => header_is_ap(s@),
            None => false,
        },
        Method::Post => match head.content_type {
            Some(s) => header_is_ap(s@),
            None => false,
        },
        Method::Other => false,
    }
}

/// Decide `profile_has_iri`.
fn profile_has_iri_exec(v: &str) -> (r: bool)
    ensures
        r == profile_has_iri(v@),
    decreases v@.len(),
{
    let n = v.unicode_len();
    match ffind_char(v, ' ') {
        None => str_eq(v, "https://www.w3.org/ns/activitystreams"),
        Some(sp) => {
            proof {
                lemma_first_index_of(v@, ' ');
            }
            if str_eq(v.substring_char(0, sp), "https://www.w3.org/ns/activitystreams") {
                true
            } else {
                profile_has_iri_exec(v.substring_char(sp + 1, n))
            }
        },
    }
}

/// Decide `param_is_as_profile`.
fn param_is_as_profile_exec(p: &str) -> (r: bool)
    ensures
        r == param_is_as_profile(p@),
{
    let n = p.unicode_len();
    if n < 8 {
        return false;
    }
    if !str_eq(p.substring_char(0, 8), "profile=") {
        return false;
    }
    let v = p.substring_char(8, n);
    let vn = v.unicode_len();
    let unq = if vn >= 2 && v.get_char(0) == '"' && v.get_char(vn - 1) == '"' {
        v.substring_char(1, vn - 1)
    } else {
        v
    };
    proof {
        assert(unq@ == unquote(p@.subrange(8, p@.len() as int)));
    }
    profile_has_iri_exec(unq)
}

/// Decide `params_have_as_profile`.
fn params_have_as_profile_exec(s: &str) -> (r: bool)
    ensures
        r == params_have_as_profile(s@),
    decreases s@.len(),
{
    let n = s.unicode_len();
    match ffind_char(s, ';') {
        None => param_is_as_profile_exec(trim_str(s)),
        Some(sc) => {
            proof {
                lemma_first_index_of(s@, ';');
            }
            if param_is_as_profile_exec(trim_str(s.substring_char(0, sc))) {
                true
            } else {
                params_have_as_profile_exec(s.substring_char(sc + 1, n))
            }
        },
    }
}

/// Decide `media_item_is_ap`.
fn media_item_is_ap_exec(item: &str) -> (r: bool)
    ensures
        r == media_item_is_ap(item@),
{
    let t = trim_str(item);
    let n = t.unicode_len();
    match ffind_char(t, ';') {
        None => str_eq(t, "application/activity+json"),
        Some(sc) => {
            proof {
                lemma_first_index_of(t@, ';');
            }
            let e = trim_str(t.substring_char(0, sc));
            if str_eq(e, "application/activity+json") {
                true
            } else if str_eq(e, "application/ld+json") {
                params_have_as_profile_exec(t.substring_char(sc + 1, n))
            } else {
                false
            }
        },
    }
}

/// Decide `header_is_ap`.
pub fn header_is_ap_exec(s: &str) -> (r: bool)
    ensures
        r == header_is_ap(s@),
    decreases s@.len(),
{
    let n = s.unicode_len();
    match ffind_char(s, ',') {
        None => media_item_is_ap_exec(s),
        Some(c) => {
            proof {
                lemma_first_index_of(s@, ',');
            }
            if media_item_is_ap_exec(s.substring_char(0, c)) {
                true
            } else {
                header_is_ap_exec(s.substring_char(c + 1, n))
            }
        },
    }
}

/// Whether the request speaks ActivityPub: for GET the `Accept` header is
/// inspected, for POST the `Content-Type` header; each may list several
/// comma-separated media types, and one ActivityPub type suffices.
pub fn is_activitypub_request(head: &RequestHead) -> (r: bool)
    ensures
        r == request_is_ap(*head),
{
    let header = match head.method {
        Method::Get => &head.accept,
        Method::Post => &head.content_type,
        Method::Other => {
            return false;
        },
    };
    match header {
        Some(s) => header_is_ap_exec(s.as_str()),
        None => false,
    }
}

/// Whether a POST announces one of the two exact ActivityPub content types
/// in its `Content-Type` header, compared whole.
pub fn is_activitypub_post(head: &RequestHead) -> (r: bool)
    ensures
        r == match head.content_type {
            Some(s) => s@ == "application/ld+json; profile=\"https://www.w3.org/ns/activitystreams\""@
                || s@ == "application/activity+json"@,
            None => false,
        },
{
    match &head.content_type {
        Some(s) => str_eq(
            s.as_str(),
            "application/ld+json; profile=\"https://www.w3.org/ns/activitystreams\"",
        ) || str_eq(s.as_str(), "application/activity+json"),
        None => false,
    }
}

} // verus!
