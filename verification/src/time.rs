//! UTC instants at millisecond precision, held as calendar fields, with the
//! RFC3339 renderings and parsers the store and the routes use. Comparing
//! fields lexicographically orders instants, since all are UTC.

use vstd::prelude::*;
use vstd::string::*;

use crate::chars::{
    dec_val, dec_val_exec, digit_char, digit_str, is_dec_digit, is_dec_digit_exec,
};
use chrono::{Datelike, Timelike};

verus! {

/// A UTC instant at millisecond precision.
#[derive(PartialEq, Eq, Structural, Clone, Copy, Debug)]
pub struct Timestamp {
    pub year: u16,
    pub month: u8,
    pub day: u8,
    pub hour: u8,
    pub minute: u8,
    pub second: u8,
    pub milli: u16,
}

/// Whether `y` is a leap year of the Gregorian calendar.
pub open spec fn is_leap_year(y: int) -> bool {
    y % 4 == 0 && (y % 100 != 0 || y % 400 == 0)
}

/// Days in a month of the Gregorian calendar.
pub open spec fn days_in_month(y: int, m: int) -> int {
    if m == 2 {
        if is_leap_year(y) {
            29
        } else {
            28
        }
    } else if m == 4 || m == 6 || m == 9 || m == 11 {
        30
    } else {
        31
    }
}

impl Timestamp {
    /// Well-formedness: a valid Gregorian calendar date and time of day.
    pub open spec fn wf(&self) -> bool {
        self.year <= 9999 && 1 <= self.month <= 12 && 1 <= self.day && self.day
            <= days_in_month(self.year as int, self.month as int) && self.hour < 24 && self.minute
            < 60 && self.second < 60 && self.milli < 1000
    }
}

/// Instant order: lexicographic over the fields, which agrees with time
/// order because every instant is UTC.
pub open spec fn ts_le(a: Timestamp, b: Timestamp) -> bool {
    if a.year != b.year {
        a.year < b.year
    } else if a.month != b.month {
        a.month < b.month
    } else if a.day != b.day {
        a.day < b.day
    } else if a.hour != b.hour {
        a.hour < b.hour
    } else if a.minute != b.minute {
        a.minute < b.minute
    } else if a.second != b.second {
        a.second < b.second
    } else {
        a.milli <= b.milli
    }
}

/// Strict instant order.
pub open spec fn ts_lt(a: Timestamp, b: Timestamp) -> bool {
    ts_le(a, b) && a != b
}

/// `ts_le` is total and transitive, and antisymmetric.
pub proof fn lemma_ts_le_order(a: Timestamp, b: Timestamp, c: Timestamp)
    ensures
        ts_le(a, b) || ts_le(b, a),
        ts_le(a, b) && ts_le(b, c) ==> ts_le(a, c),
        ts_le(a, b) && ts_le(b, a) ==> a == b,
        ts_le(a, a),
{
}

/// Days in a month, decided executably.
pub fn days_in_month_exec(y: u16, m: u8) -> (r: u8)
    requires
        1 <= m <= 12,
    ensures
        r == days_in_month(y as int, m as int),
{
    if m == 2 {
        if (y % 4 == 0) && (y % 100 != 0 || y % 400 == 0) {
            29
        } else {
            28
        }
    } else if m == 4 || m == 6 || m == 9 || m == 11 {
        30
    } else {
        31
    }
}

impl Timestamp {
    /// Well-formedness, decided executably.
    pub fn validate(&self) -> (r: bool)
        ensures
            r == self.wf(),
    {
        self.year <= 9999 && 1 <= self.month && self.month <= 12 && 1 <= self.day && self.day
            <= days_in_month_exec(self.year, self.month) && self.hour < 24 && self.minute < 60
            && self.second < 60 && self.milli < 1000
    }

    /// Instant order, decided executably.
    pub fn le(&self, other: &Timestamp) -> (r: bool)
        ensures
            r == ts_le(*self, *other),
    {
        if self.year != other.year {
            self.year < other.year
        } else if self.month != other.month {
            self.month < other.month
        } else if self.day != other.day {
            self.day < other.day
        } else if self.hour != other.hour {
            self.hour < other.hour
        } else if self.minute != other.minute {
            self.minute < other.minute
        } else if self.second != other.second {
            self.second < other.second
        } else {
            self.milli <= other.milli
        }
    }

    /// Strict instant order, decided executably.
    pub fn lt(&self, other: &Timestamp) -> (r: bool)
        ensures
            r == ts_lt(*self, *other),
    {
        self.le(other) && !(other.le(self))
    }
}

/// Two decimal digits for a value below 100.
pub open spec fn dec2(n: int) -> Seq<char> {
    seq![digit_char((n / 10) as u32), digit_char((n % 10) as u32)]
}

/// Three decimal digits for a value below 1000.
pub open spec fn dec3(n: int) -> Seq<char> {
    seq![digit_char((n / 100) as u32)] + dec2(n % 100)
}

/// Four decimal digits for a value below 10000.
pub open spec fn dec4(n: int) -> Seq<char> {
    seq![digit_char((n / 1000) as u32)] + dec3(n % 1000)
}

/// The canonical wire rendering of an instant: RFC3339 with millisecond
/// precision, UTC, `Z` suffix.
pub open spec fn render_millis(t: Timestamp) -> Seq<char> {
    dec4(t.year as int) + seq!['-'] + dec2(t.month as int) + seq!['-'] + dec2(t.day as int)
        + seq!['T'] + dec2(t.hour as int) + seq![':'] + dec2(t.minute as int) + seq![':'] + dec2(
        t.second as int,
    ) + seq!['.'] + dec3(t.milli as int) + seq!['Z']
}

/// The rendering of an instant with seconds omitted.
pub open spec fn render_minutes(t: Timestamp) -> Seq<char> {
    dec4(t.year as int) + seq!['-'] + dec2(t.month as int) + seq!['-'] + dec2(t.day as int)
        + seq!['T'] + dec2(t.hour as int) + seq![':'] + dec2(t.minute as int) + seq!['Z']
}

/// Append two decimal digits.
fn push2(out: &mut String, v: u8)
    requires
        v < 100,
    ensures
        final(out)@ == old(out)@ + dec2(v as int),
{
    out.append(digit_str(v / 10));
    out.append(digit_str(v % 10));
    proof {
        assert(out@ =~= old(out)@ + dec2(v as int));
    }
}

/// Append three decimal digits.
fn push3(out: &mut String, v: u16)
    requires
        v < 1000,
    ensures
        final(out)@ == old(out)@ + dec3(v as int),
{
    out.append(digit_str((v / 100) as u8));
    push2(out, (v % 100) as u8);
    proof {
        assert(out@ =~= old(out)@ + dec3(v as int));
    }
}

/// Append four decimal digits.
fn push4(out: &mut String, v: u16)
    requires
        v < 10000,
    ensures
        final(out)@ == old(out)@ + dec4(v as int),
{
    out.append(digit_str((v / 1000) as u8));
    push3(out, v % 1000);
    proof {
        assert(out@ =~= old(out)@ + dec4(v as int));
    }
}

/// Render an instant in its canonical wire form.
pub fn render_rfc3339_millis(t: &Timestamp) -> (r: String)
    requires
        t.wf(),
    ensures
        r@ == render_millis(*t),
{
    let mut out = String::new();
    push4(&mut out, t.year);
    out.append("-");
    push2(&mut out, t.month);
    out.append("-");
    push2(&mut out, t.day);
    out.append("T");
    push2(&mut out, t.hour);
    out.append(":");
    push2(&mut out, t.minute);
    out.append(":");
    push2(&mut out, t.second);
    out.append(".");
    push3(&mut out, t.milli);
    out.append("Z");
    proof {
        reveal_strlit("-");
        reveal_strlit("T");
        reveal_strlit(":");
        reveal_strlit(".");
        reveal_strlit("Z");
        assert(out@ =~= render_millis(*t));
    }
    out
}

/// Render an instant with seconds omitted.
pub fn format_timestamp_rfc3339_seconds_omitted(t: &Timestamp) -> (r: String)
    requires
        t.wf(),
    ensures
        r@ == render_minutes(*t),
{
    let mut out = String::new();
    push4(&mut out, t.year);
    out.append("-");
    push2(&mut out, t.month);
    out.append("-");
    push2(&mut out, t.day);
    out.append("T");
    push2(&mut out, t.hour);
    out.append(":");
    push2(&mut out, t.minute);
    out.append("Z");
    proof {
        reveal_strlit("-");
        reveal_strlit("T");
        reveal_strlit(":");
        reveal_strlit("Z");
        assert(out@ =~= render_minutes(*t));
    }
    out
}

/// Whether positions `i` (inclusive) to `j` (exclusive) are decimal digits.
pub open spec fn digits_at(s: Seq<char>, i: int, j: int) -> bool {
    forall|k: int| i <= k < j ==> is_dec_digit(#[trigger] s[k])
}

/// The two-digit number at position `i`.
pub open spec fn num2(s: Seq<char>, i: int) -> int {
    dec_val(s[i]) * 10 + dec_val(s[i + 1])
}

/// The four-digit number at position `i`.
pub open spec fn num4(s: Seq<char>, i: int) -> int {
    num2(s, i) * 100 + num2(s, i + 2)
}

/// The shared date-and-minutes prefix `YYYY-MM-DDTHH:MM`.
pub open spec fn prefix_shape(s: Seq<char>) -> bool {
    s.len() >= 17 && digits_at(s, 0, 4) && s[4] == '-' && digits_at(s, 5, 7) && s[7] == '-'
        && digits_at(s, 8, 10) && s[10] == 'T' && digits_at(s, 11, 13) && s[13] == ':'
        && digits_at(s, 14, 16)
}

/// The shape of a full instant: prefix, seconds, an optional fraction of one
/// to nine digits, and the `Z` designator.
pub open spec fn instant_shape(s: Seq<char>) -> bool {
    prefix_shape(s) && s.len() >= 20 && s[16] == ':' && digits_at(s, 17, 19) && ((s.len() == 20
        && s[19] == 'Z') || (s[19] == '.' && 22 <= s.len() <= 30 && s[s.len() - 1] == 'Z'
        && digits_at(s, 20, s.len() - 1)))
}

/// The milliseconds encoded by an instant's fraction (truncated past three
/// digits, padded below).
pub open spec fn instant_millis(s: Seq<char>) -> int {
    if s.len() == 20 {
        0
    } else {
        let k = s.len() - 21;  // count of fraction digits
        if k >= 3 {
            num2(s, 20) * 10 + dec_val(s[22])
        } else if k == 2 {
            num2(s, 20) * 10
        } else {
            dec_val(s[20]) * 100
        }
    }
}

/// The fields an instant string encodes.
pub open spec fn instant_fields(s: Seq<char>) -> Timestamp {
    Timestamp {
        year: num4(s, 0) as u16,
        month: num2(s, 5) as u8,
        day: num2(s, 8) as u8,
        hour: num2(s, 11) as u8,
        minute: num2(s, 14) as u8,
        second: num2(s, 17) as u8,
        milli: instant_millis(s) as u16,
    }
}

/// Read the two-digit number at position `i`.
fn read2(s: &str, i: usize) -> (r: u8)
    requires
        i + 2 <= s@.len(),
        s@.len() <= usize::MAX,
        digits_at(s@, i as int, i + 2),
    ensures
        r == num2(s@, i as int),
        r < 100,
{
    let hi = dec_val_exec(s.get_char(i));
    let lo = dec_val_exec(s.get_char(i + 1));
    (hi * 10 + lo) as u8
}

/// Parse a full RFC3339 UTC instant (`YYYY-MM-DDTHH:MM:SS[.frac]Z`).
pub fn parse_instant(s: &str) -> (r: Option<Timestamp>)
    ensures
        match r {
            Some(t) => instant_shape(s@) && t == instant_fields(s@) && t.wf(),
            None => !(instant_shape(s@) && instant_fields(s@).wf()),
        },
{
    let n = s.unicode_len();
    if n < 20 || n > 30 {
        return None;
    }
    // fixed separators
    if s.get_char(4) != '-' || s.get_char(7) != '-' || s.get_char(10) != 'T' || s.get_char(13)
        != ':' || s.get_char(16) != ':' {
        return None;
    }
    // digit groups
    let mut k: usize = 0;
    while k < 19
        invariant
            n == s@.len(),
            20 <= n <= 30,
            k <= 19,
            forall|j: int|
                0 <= j < k && j != 4 && j != 7 && j != 10 && j != 13 && j != 16 ==> is_dec_digit(
                    #[trigger] s@[j],
                ),
        decreases 19 - k,
    {
        if k != 4 && k != 7 && k != 10 && k != 13 && k != 16 {
            if !is_dec_digit_exec(s.get_char(k)) {
                return None;
            }
        }
        k += 1;
    }
    let milli: u16;
    if n == 20 {
        if s.get_char(19) != 'Z' {
            return None;
        }
        milli = 0;
    } else {
        if s.get_char(19) != '.' || s.get_char(n - 1) != 'Z' {
            return None;
        }
        if n < 22 {
            return None;
        }
        let mut j: usize = 20;
        while j < n - 1
            invariant
                n == s@.len(),
                22 <= n <= 30,
                20 <= j <= n - 1,
                forall|m: int| 20 <= m < j ==> is_dec_digit(#[trigger] s@[m]),
            decreases n - j,
        {
            if !is_dec_digit_exec(s.get_char(j)) {
                return None;
            }
            j += 1;
        }
        let frac_digits = n - 21;
        if frac_digits >= 3 {
            milli = (read2(s, 20) as u16) * 10 + (dec_val_exec(s.get_char(22)) as u16);
        } else if frac_digits == 2 {
            milli = (read2(s, 20) as u16) * 10;
        } else {
            milli = (dec_val_exec(s.get_char(20)) as u16) * 100;
        }
    }
    let year = {
        let hi = read2(s, 0);
        let lo = read2(s, 2);
        (hi as u16) * 100 + (lo as u16)
    };
    let t = Timestamp {
        year,
        month: read2(s, 5),
        day: read2(s, 8),
        hour: read2(s, 11),
        minute: read2(s, 14),
        second: read2(s, 17),
        milli,
    };
    proof {
        assert(instant_shape(s@));
        assert(t == instant_fields(s@));
    }
    if t.validate() {
        Some(t)
    } else {
        None
    }
}

/// The shape of a time-travel query segment: `YYYY-MM-DDTHH:MM` followed by
/// `Z`, or `:SS` and an optional fraction of one to three digits, then `Z`.
pub open spec fn query_shape(s: Seq<char>) -> bool {
    prefix_shape(s) && ((s.len() == 17 && s[16] == 'Z') || (instant_shape(s) && s.len() <= 24))
}

/// The fields a query segment encodes: omitted seconds default to 59 and an
/// omitted or short fraction is padded with nines, so the query rounds up to
/// the end of the stated window.
pub open spec fn query_fields(s: Seq<char>) -> Timestamp {
    if s.len() == 17 {
        Timestamp {
            year: num4(s, 0) as u16,
            month: num2(s, 5) as u8,
            day: num2(s, 8) as u8,
            hour: num2(s, 11) as u8,
            minute: num2(s, 14) as u8,
            second: 59,
            milli: 999,
        }
    } else {
        let t = instant_fields(s);
        let k = s.len() - 21;
        if s.len() == 20 {
            Timestamp { milli: 999, ..t }
        } else if k == 1 {
            Timestamp { milli: (t.milli + 99) as u16, ..t }
        } else if k == 2 {
            Timestamp { milli: (t.milli + 9) as u16, ..t }
        } else {
            t
        }
    }
}

/// Parse a time-travel query segment, omitted seconds and fraction
/// defaulting to the end of the stated window.
pub fn parse_query_time(s: &str) -> (r: Option<Timestamp>)
    ensures
        match r {
            Some(t) => query_shape(s@) && t == query_fields(s@) && t.wf(),
            None => !(query_shape(s@) && query_fields(s@).wf()),
        },
{
    let n = s.unicode_len();
    if n < 17 {
        return None;
    }
    if n == 17 {
        if s.get_char(4) != '-' || s.get_char(7) != '-' || s.get_char(10) != 'T' || s.get_char(13)
            != ':' || s.get_char(16) != 'Z' {
            return None;
        }
        let mut k: usize = 0;
        while k < 16
            invariant
                n == s@.len(),
                n == 17,
                k <= 16,
                forall|j: int|
                    0 <= j < k && j != 4 && j != 7 && j != 10 && j != 13 ==> is_dec_digit(
                        #[trigger] s@[j],
                    ),
            decreases 16 - k,
        {
            if k != 4 && k != 7 && k != 10 && k != 13 {
                if !is_dec_digit_exec(s.get_char(k)) {
                    return None;
                }
            }
            k += 1;
        }
        let year = {
            let hi = read2(s, 0);
            let lo = read2(s, 2);
            (hi as u16) * 100 + (lo as u16)
        };
        let t = Timestamp {
            year,
            month: read2(s, 5),
            day: read2(s, 8),
            hour: read2(s, 11),
            minute: read2(s, 14),
            second: 59,
            milli: 999,
        };
        proof {
            assert(query_shape(s@));
            assert(t == query_fields(s@));
        }
        if t.validate() {
            return Some(t);
        }
        return None;
    }
    if n > 24 {
        return None;
    }
    match parse_instant(s) {
        Some(t) => {
            let padded = if n == 20 {
            // seconds given, no fraction: fill milliseconds to the maximum
                Timestamp { milli: 999, ..t }
            } else if n == 22 {
                Timestamp { milli: t.milli + 99, ..t }
            } else if n == 23 {
                Timestamp { milli: t.milli + 9, ..t }
            } else {
                t
            };
            proof {
                assert(query_shape(s@));
                assert(padded == query_fields(s@));
            }
            Some(padded)
        },
        None => {
            proof {
                if query_shape(s@) {
                    assert(instant_shape(s@));
                    assert(query_fields(s@).wf() ==> instant_fields(s@).wf());
                }
            }
            None
        },
    }
}

/// Relies on chrono's `Utc::now` with the `Datelike`/`Timelike` accessors:
/// the current UTC instant broken into calendar fields. Chrono documents
/// month in 1..=12, day in 1..=31, hour below 24, minute and second below
/// 60, and subsecond milliseconds below 2000 (the excess marking a leap
/// second); the year is whatever the clock says.
#[verifier::external_body]
fn now_fields() -> (r: (i32, u32, u32, u32, u32, u32, u32))
    ensures
        1 <= r.1 <= 12,
        1 <= r.2 <= 31,
        r.3 < 24,
        r.4 < 60,
        r.5 < 60,
        r.6 < 2000,
{
    let t = chrono::Utc::now();
    (t.year(), t.month(), t.day(), t.hour(), t.minute(), t.second(), t.timestamp_subsec_millis())
}

/// One timestamp for a whole request: the clock now, or the epoch instant
/// should the clock report something no calendar holds.
pub fn request_timestamp() -> (r: Timestamp)
    ensures
        r.wf(),
{
    let f = now_fields();
    let fallback = Timestamp {
        year: 1970,
        month: 1,
        day: 1,
        hour: 0,
        minute: 0,
        second: 0,
        milli: 0,
    };
    if f.0 < 0 || f.0 > 9999 {
        return fallback;
    }
    let milli: u16 = if f.6 >= 1000 {
        999
    } else {
        f.6 as u16
    };
    let t = Timestamp {
        year: f.0 as u16,
        month: f.1 as u8,
        day: f.2 as u8,
        hour: f.3 as u8,
        minute: f.4 as u8,
        second: f.5 as u8,
        milli,
    };
    if t.validate() {
        t
    } else {
        fallback
    }
}


/// The canonical rendering of a valid instant parses back to it: it has the
/// instant shape, encodes the same fields, and none of its characters is
/// mistakable for a hex digit string of an identity.
pub proof fn lemma_render_roundtrip(t: Timestamp)
    requires
        t.wf(),
    ensures
        render_millis(t).len() == 24,
        instant_shape(render_millis(t)),
        instant_fields(render_millis(t)) == t,
        render_millis(t)[4] == '-',
{
    let s = render_millis(t);
    let y = t.year as int;
    let mo = t.month as int;
    let d = t.day as int;
    let h = t.hour as int;
    let mi = t.minute as int;
    let se = t.second as int;
    let ms = t.milli as int;
    assert(s.len() == 24);
    assert(s[0] == digit_char((y / 1000) as u32));
    assert(s[1] == digit_char((y % 1000 / 100) as u32));
    assert(s[2] == digit_char((y % 1000 % 100 / 10) as u32));
    assert(s[3] == digit_char((y % 1000 % 100 % 10) as u32));
    assert(s[4] == '-');
    assert(s[5] == digit_char((mo / 10) as u32));
    assert(s[6] == digit_char((mo % 10) as u32));
    assert(s[7] == '-');
    assert(s[8] == digit_char((d / 10) as u32));
    assert(s[9] == digit_char((d % 10) as u32));
    assert(s[10] == 'T');
    assert(s[11] == digit_char((h / 10) as u32));
    assert(s[12] == digit_char((h % 10) as u32));
    assert(s[13] == ':');
    assert(s[14] == digit_char((mi / 10) as u32));
    assert(s[15] == digit_char((mi % 10) as u32));
    assert(s[16] == ':');
    assert(s[17] == digit_char((se / 10) as u32));
    assert(s[18] == digit_char((se % 10) as u32));
    assert(s[19] == '.');
    assert(s[20] == digit_char((ms / 100) as u32));
    assert(s[21] == digit_char((ms % 100 / 10) as u32));
    assert(s[22] == digit_char((ms % 100 % 10) as u32));
    assert(s[23] == 'Z');
    assert forall|v: u32| v < 10 implies is_dec_digit(digit_char(v)) && dec_val(digit_char(v))
        == v by {
        crate::chars::lemma_dec_digit_roundtrip(v);
    }
    assert(digits_at(s, 0, 4));
    assert(digits_at(s, 5, 7));
    assert(digits_at(s, 8, 10));
    assert(digits_at(s, 11, 13));
    assert(digits_at(s, 14, 16));
    assert(digits_at(s, 17, 19));
    assert(digits_at(s, 20, 23));
    assert(prefix_shape(s));
    assert(instant_shape(s));
    assert(num4(s, 0) == y) by {
        assert(num2(s, 0) == (y / 1000) * 10 + y % 1000 / 100);
        assert(num2(s, 2) == (y % 1000 % 100 / 10) * 10 + y % 1000 % 100 % 10);
        assert((y / 1000) * 1000 + y % 1000 == y);
        assert((y % 1000 / 100) * 100 + y % 1000 % 100 == y % 1000);
        assert((y % 1000 % 100 / 10) * 10 + y % 1000 % 100 % 10 == y % 1000 % 100);
    }
    assert(num2(s, 5) == mo) by {
        assert((mo / 10) * 10 + mo % 10 == mo);
    }
    assert(num2(s, 8) == d) by {
        assert((d / 10) * 10 + d % 10 == d);
    }
    assert(num2(s, 11) == h) by {
        assert((h / 10) * 10 + h % 10 == h);
    }
    assert(num2(s, 14) == mi) by {
        assert((mi / 10) * 10 + mi % 10 == mi);
    }
    assert(num2(s, 17) == se) by {
        assert((se / 10) * 10 + se % 10 == se);
    }
    assert(instant_millis(s) == ms) by {
        assert(num2(s, 20) == (ms / 100) * 10 + ms % 100 / 10);
        assert(dec_val(s[22]) == ms % 100 % 10);
        assert((ms / 100) * 100 + ms % 100 == ms);
        assert((ms % 100 / 10) * 10 + ms % 100 % 10 == ms % 100);
    }
    assert(instant_fields(s) == t);
}

} // verus!
