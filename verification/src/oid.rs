//! Object identities: opaque server-generated 12-byte values, rendered as
//! 24-hex-digit strings.

use vstd::prelude::*;
use vstd::string::*;

use crate::chars::{
    digit_char, digit_str, hex_val, hex_val_exec, is_hex_digit, is_hex_digit_exec,
    lemma_hex_digit_roundtrip,
};

verus! {

/// An opaque, globally unique, server-generated 12-byte identity.
pub struct ObjectId {
    pub bytes: Vec<u8>,
}

impl ObjectId {
    /// Well-formedness: exactly 12 bytes.
    pub open spec fn wf(&self) -> bool {
        self.bytes@.len() == 12
    }

    /// A copy of this identity.
    pub fn duplicate(&self) -> (r: ObjectId)
        ensures
            r.bytes@ == self.bytes@,
    {
        ObjectId { bytes: self.bytes.clone() }
    }
}

/// Whether two identities hold the same bytes.
pub fn oid_eq(a: &ObjectId, b: &ObjectId) -> (r: bool)
    ensures
        r == (a.bytes@ == b.bytes@),
{
    let na = a.bytes.len();
    let nb = b.bytes.len();
    if na != nb {
        return false;
    }
    let mut i: usize = 0;
    while i < na
        invariant
            na == a.bytes@.len(),
            nb == b.bytes@.len(),
            na == nb,
            i <= na,
            forall|j: int| 0 <= j < i ==> a.bytes@[j] == b.bytes@[j],
        decreases na - i,
    {
        if a.bytes[i] != b.bytes[i] {
            return false;
        }
        i += 1;
    }
    proof {
        assert(a.bytes@ =~= b.bytes@);
    }
    true
}

/// Whether `s` is a 24-hex-digit identity string (either letter case).
pub open spec fn is_oid_str(s: Seq<char>) -> bool {
    s.len() == 24 && forall|i: int| 0 <= i < 24 ==> is_hex_digit(#[trigger] s[i])
}

/// The byte at position `i` encoded by an identity string.
pub open spec fn oid_byte(s: Seq<char>, i: int) -> u8 {
    (hex_val(s[2 * i]) * 16 + hex_val(s[2 * i + 1])) as u8
}

/// The canonical (lowercase) hex rendering of 12 bytes: character at `2*i`
/// is the high digit of byte `i`, at `2*i + 1` its low digit.
pub open spec fn oid_chars_ok(b: Seq<u8>, s: Seq<char>) -> bool {
    s.len() == 24 && forall|i: int|
        0 <= i < 12 ==> s[2 * i] == digit_char((#[trigger] b[i] / 16) as u32) && s[2 * i + 1]
            == digit_char((b[i] % 16) as u32)
}

/// Parse a 24-hex-digit identity string.
pub fn parse_oid(s: &str) -> (r: Option<ObjectId>)
    ensures
        match r {
            Some(o) => is_oid_str(s@) && o.wf() && forall|i: int|
                0 <= i < 12 ==> #[trigger] o.bytes@[i] == oid_byte(s@, i),
            None => !is_oid_str(s@),
        },
{
    let n = s.unicode_len();
    if n != 24 {
        return None;
    }
    let mut bytes: Vec<u8> = Vec::new();
    let mut i: usize = 0;
    while i < 12
        invariant
            n == s@.len(),
            n == 24,
            i <= 12,
            bytes@.len() == i,
            forall|j: int| 0 <= j < 2 * i ==> is_hex_digit(#[trigger] s@[j]),
            forall|j: int| 0 <= j < i ==> #[trigger] bytes@[j] == oid_byte(s@, j),
        decreases 12 - i,
    {
        let hi = s.get_char(2 * i);
        let lo = s.get_char(2 * i + 1);
        if !is_hex_digit_exec(hi) || !is_hex_digit_exec(lo) {
            return None;
        }
        let b = (hex_val_exec(hi) * 16 + hex_val_exec(lo)) as u8;
        proof {
            assert(b == oid_byte(s@, i as int));
        }
        bytes.push(b);
        i += 1;
    }
    proof {
        assert forall|j: int| 0 <= j < 24 implies is_hex_digit(#[trigger] s@[j]) by {
            if j % 2 == 0 {
                assert(j == 2 * (j / 2));
            } else {
                assert(j == 2 * (j / 2) + 1);
            }
        }
    }
    Some(ObjectId { bytes })
}

/// Render an identity as its canonical lowercase 24-hex-digit string.
pub fn oid_hex(o: &ObjectId) -> (r: String)
    requires
        o.wf(),
    ensures
        oid_chars_ok(o.bytes@, r@),
{
    let mut out = String::new();
    let mut i: usize = 0;
    while i < 12
        invariant
            o.wf(),
            i <= 12,
            out@.len() == 2 * i,
            forall|j: int|
                0 <= j < i ==> out@[2 * j] == digit_char((#[trigger] o.bytes@[j] / 16) as u32)
                    && out@[2 * j + 1] == digit_char((o.bytes@[j] % 16) as u32),
        decreases 12 - i,
    {
        let b = o.bytes[i];
        out.append(digit_str(b / 16));
        out.append(digit_str(b % 16));
        i += 1;
    }
    out
}

/// A rendered identity parses back to the same bytes.
pub proof fn lemma_oid_roundtrip(b: Seq<u8>, s: Seq<char>)
    requires
        b.len() == 12,
        oid_chars_ok(b, s),
    ensures
        is_oid_str(s),
        forall|i: int| 0 <= i < 12 ==> oid_byte(s, i) == #[trigger] b[i],
{
    assert forall|i: int| 0 <= i < 12 implies oid_byte(s, i) == #[trigger] b[i] by {
        lemma_hex_digit_roundtrip((b[i] / 16) as u32);
        lemma_hex_digit_roundtrip((b[i] % 16) as u32);
        assert(hex_val(s[2 * i]) == (b[i] / 16) as u32);
        assert(hex_val(s[2 * i + 1]) == (b[i] % 16) as u32);
    }
    assert forall|j: int| 0 <= j < 24 implies is_hex_digit(#[trigger] s[j]) by {
        if j % 2 == 0 {
            let i = j / 2;
            lemma_hex_digit_roundtrip((b[i] / 16) as u32);
            assert(j == 2 * i);
        } else {
            let i = j / 2;
            lemma_hex_digit_roundtrip((b[i] % 16) as u32);
            assert(j == 2 * i + 1);
        }
    }
}

/// Relies on `bson::oid::ObjectId::new`: a freshly generated 12-byte object
/// identity (random content; only its width is promised).
#[verifier::external_body]
fn fresh_oid_bytes() -> (r: Vec<u8>)
    ensures
        r@.len() == 12,
{
    bson::oid::ObjectId::new().bytes().to_vec()
}

/// A brand-new server-generated identity.
pub fn generate_id() -> (r: ObjectId)
    ensures
        r.wf(),
{
    ObjectId { bytes: fresh_oid_bytes() }
}

/// A batch of brand-new identities, one per record a request will create.
pub fn generate_ids(n: usize) -> (r: Vec<ObjectId>)
    ensures
        r@.len() == n,
        forall|i: int| 0 <= i < n ==> (#[trigger] r@[i]).wf(),
{
    let mut out: Vec<ObjectId> = Vec::new();
    let mut i: usize = 0;
    while i < n
        invariant
            i <= n,
            out@.len() == i,
            forall|j: int| 0 <= j < i ==> (#[trigger] out@[j]).wf(),
        decreases n - i,
    {
        out.push(generate_id());
        i += 1;
    }
    out
}

} // verus!
