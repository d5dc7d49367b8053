//! Request-boundary utilities: identity extraction from path segments, small
//! string predicates, and the interfaces of out-of-scope collaborators.

use vstd::prelude::*;
use vstd::string::*;

use crate::chars::{is_dec_digit, is_dec_digit_exec, last_index_of, rfind_char};

verus! {

/// Where a path segment's identity starts: right after the rightmost `-`,
/// or, with no `-`, right after the rightmost `/`; -1 when neither occurs.
pub open spec fn oid_cut(s: Seq<char>) -> int {
    if last_index_of(s, '-') != -1 {
        last_index_of(s, '-')
    } else {
        last_index_of(s, '/')
    }
}

/// The identity token of an object-referencing path segment: the substring
/// after the rightmost `-`, or if none, after the rightmost `/`.
pub fn get_oid<'a>(url: &'a str) -> (r: Option<&'a str>)
    ensures
        match r {
            Some(t) => oid_cut(url@) != -1 && t@ == url@.subrange(oid_cut(url@) + 1, url@.len() as int),
            None => oid_cut(url@) == -1,
        },
{
    let n = url.unicode_len();
    let cut = match rfind_char(url, '-') {
        Some(i) => i,
        None => match rfind_char(url, '/') {
            Some(i) => i,
            None => {
                return None;
            },
        },
    };
    proof {
        crate::chars::lemma_last_index_of(url@, '-');
        crate::chars::lemma_last_index_of(url@, '/');
    }
    Some(url.substring_char(cut + 1, n))
}

/// Whether a path segment names an account rather than an identity.
pub fn is_username(name: &str) -> (r: bool)
    ensures
        r == (name@.len() > 0 && name@[0] == '@'),
{
    if name.unicode_len() == 0 {
        return false;
    }
    name.get_char(0) == '@'
}

/// Whether every character of `input` is an ASCII decimal digit. This is
/// deliberately narrower than Unicode's digit classes: the strings it gates
/// are identity and route segments, which only ever carry ASCII digits.
pub fn is_string_numeric(input: &str) -> (r: bool)
    ensures
        r == forall|i: int| 0 <= i < input@.len() ==> is_dec_digit(#[trigger] input@[i]),
{
    let n = input.unicode_len();
    let mut i: usize = 0;
    while i < n
        invariant
            n == input@.len(),
            i <= n,
            forall|j: int| 0 <= j < i ==> is_dec_digit(#[trigger] input@[j]),
        decreases n - i,
    {
        if !is_dec_digit_exec(input.get_char(i)) {
            return false;
        }
        i += 1;
    }
    true
}

/// A reference extracted from a route: the identity and the display-name
/// decoration that may precede it.
pub struct Reference {
    pub id: String,
    pub url_decoration: String,
}

/// An absolute URL, held as the parts the library reads.
pub struct Url {
    pub scheme: String,
    pub host: String,
    pub path: String,
}

impl Url {
    /// The URL rendered back to one string.
    pub fn render(&self) -> (r: String)
        ensures
            r@ == self.scheme@ + "://"@ + self.host@ + self.path@,
    {
        let mut out = self.scheme.clone();
        out.append("://");
        out.append(self.host.as_str());
        out.append(self.path.as_str());
        out
    }
}

/// What the single-worker rendering collaborator replies with: the document
/// head and body markup of one rendered component.
pub struct GeneratedHtml {
    pub head: String,
    pub html: String,
}

} // verus!
