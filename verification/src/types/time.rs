//! UTC date and time on the proleptic Gregorian calendar, converted to and
//! from Unix time with the days-from-civil algorithms, and RFC 3339 text.
use vstd::prelude::*;
use vstd::string::StringSliceAdditionalSpecFns;
use vstd::utf8::encode_utf8;
use crate::text::{dec_padded, signed_padded, push_decimal_padded, push_signed_padded, push_str, push_char, digit_char, is_ws};
use crate::textops::{trim_ws, trim_str, trim_start_ws, trim_end_ws};
use std::time::SystemTime;

verus! {

/// Whether a year is a leap year.
pub open spec fn is_leap(y: int) -> bool {
    y % 4 == 0 && (y % 100 != 0 || y % 400 == 0)
}

/// The number of days of month `m` (1 to 12) of year `y`.
pub open spec fn days_in_month(y: int, m: int) -> int {
    if m == 2 {
        if is_leap(y) { 29 } else { 28 }
    } else if m == 4 || m == 6 || m == 9 || m == 11 {
        30
    } else {
        31
    }
}

/// A calendar date.
pub open spec fn valid_date(y: int, m: int, d: int) -> bool {
    1 <= m <= 12 && 1 <= d <= days_in_month(y, m)
}

/// The day number (days since 1970-01-01) of a date; years run from March
/// so that the leap day comes last.
pub open spec fn days_of_civil(y: int, m: int, d: int) -> int {
    let y1 = if m <= 2 { y - 1 } else { y };
    let era = y1 / 400;
    let yoe = y1 - era * 400;
    let mp = if m <= 2 { m + 9 } else { m - 3 };
    let doy = (153 * mp + 2) / 5 + d - 1;
    let doe = yoe * 365 + yoe / 4 - yoe / 100 + doy;
    era * 146097 + doe - 719468
}

/// The date of a day number.
pub open spec fn civil_of_days(days: int) -> (int, int, int) {
    let z = days + 719468;
    let era = z / 146097;
    let doe = z - era * 146097;
    let yoe = (doe - doe / 1460 + doe / 36524 - doe / 146096) / 365;
    let doy = doe - (365 * yoe + yoe / 4 - yoe / 100);
    let mp = (5 * doy + 2) / 153;
    let d = doy - (153 * mp + 2) / 5 + 1;
    let m = if mp < 10 { mp + 3 } else { mp - 9 };
    (yoe + era * 400 + if m <= 2 { 1int } else { 0int }, m, d)
}

/// Whether the March-based year `yoe` of an era ends with a leap day.
pub open spec fn ends_leap(yoe: int) -> bool {
    (yoe + 1) % 4 == 0 && ((yoe + 1) % 100 != 0 || yoe == 399)
}

/// The first day of the March-based year `yoe` within its era.
pub open spec fn year_start(yoe: int) -> int {
    365 * yoe + yoe / 4 - yoe / 100
}

/// The year within its era of a day of the era.
pub open spec fn year_of_era(doe: int) -> int {
    (doe - doe / 1460 + doe / 36524 - doe / 146096) / 365
}

/// The day `doy` of the March-based year `yoe` lies in year `yoe`.
proof fn lemma_year_of_era(yoe: int, doy: int)
    requires
        0 <= yoe <= 399,
        0 <= doy <= if ends_leap(yoe) { 365int } else { 364int },
    ensures
        year_of_era(year_start(yoe) + doy) == yoe,
{
    let c = yoe / 100;
    let q = (yoe % 100) / 4;
    let r = yoe % 4;
    assert(yoe == 100 * c + 4 * q + r);
    assert(yoe / 4 == 25 * c + q);
    let doe = year_start(yoe) + doy;
    assert(doe == 36524 * c + 1461 * q + 365 * r + doy);
    if c == 3 && q == 24 && r == 3 && doy == 365 {
        assert(doe == 146096);
    } else {
        assert(doe < 146096);
        assert(doe / 146096 == 0);
        assert(1461 * q + 365 * r + doy < 36524);
        assert(doe / 36524 == c);
        let rr = 24 * c + q + 365 * r + doy;
        assert(doe == 1460 * (25 * c + q) + rr);
        if rr < 1460 {
            assert(doe / 1460 == 25 * c + q);
            assert(doe - doe / 1460 + doe / 36524 - doe / 146096 == 365 * yoe + doy);
        } else {
            assert(r == 3);
            assert(doe / 1460 == 25 * c + q + 1);
            assert(doe - doe / 1460 + doe / 36524 - doe / 146096 == 365 * yoe + doy - 1);
        }
    }
}

/// Every day of an era lies in one of its years, within that year's length.
proof fn lemma_day_of_era(doe: int)
    requires
        0 <= doe <= 146096,
    ensures
        0 <= year_of_era(doe) <= 399,
        0 <= doe - year_start(year_of_era(doe)) <= if ends_leap(year_of_era(doe)) { 365int } else { 364int },
{
    if doe == 146096 {
        assert(year_of_era(doe) == 399);
    } else {
        let c = doe / 36524;
        let r1 = doe - 36524 * c;
        let q = r1 / 1461;
        let r2 = r1 - 1461 * q;
        let r = if r2 / 365 > 3 { 3 } else { r2 / 365 };
        let doy = r2 - 365 * r;
        let yoe = 100 * c + 4 * q + r;
        assert(0 <= c <= 3);
        assert(0 <= q <= 24);
        assert(0 <= r2 <= 1460);
        assert(0 <= doy <= 365);
        assert(doy == 365 ==> r == 3 && q < 24);
        assert(yoe / 4 == 25 * c + q);
        assert(yoe / 100 == c);
        assert(doe == year_start(yoe) + doy);
        lemma_year_of_era(yoe, doy);
    }
}

/// The day of the March-based year of a date, and back.
proof fn lemma_month_of_year(mp: int, d: int, leap: bool)
    requires
        0 <= mp <= 11,
        1 <= d <= (if mp == 11 { if leap { 29int } else { 28int } } else if mp == 1 || mp == 3 || mp == 6 || mp == 8 { 30int } else { 31int }),
    ensures
        0 <= (153 * mp + 2) / 5 + d - 1 <= if leap { 365int } else { 364int },
        (5 * ((153 * mp + 2) / 5 + d - 1) + 2) / 153 == mp,
{
}

/// Every day of a March-based year falls in one of its months.
proof fn lemma_day_of_year(doy: int, leap: bool)
    requires
        0 <= doy <= if leap { 365int } else { 364int },
    ensures
        0 <= (5 * doy + 2) / 153 <= 11,
        1 <= doy - (153 * ((5 * doy + 2) / 153) + 2) / 5 + 1,
        doy - (153 * ((5 * doy + 2) / 153) + 2) / 5 + 1 <= ({
            let mp = (5 * doy + 2) / 153;
            if mp == 11 { if leap { 29int } else { 28int } } else if mp == 1 || mp == 3 || mp == 6 || mp == 8 { 30int } else { 31int }
        }),
{
}

/// A date's day number gives back the date.
#[verifier::spinoff_prover]
#[verifier::rlimit(30)]
pub proof fn lemma_civil_round_trip(y: int, m: int, d: int)
    requires
        valid_date(y, m, d),
    ensures
        civil_of_days(days_of_civil(y, m, d)) == (y, m, d),
{
    let y1 = if m <= 2 { y - 1 } else { y };
    let era = y1 / 400;
    let yoe = y1 - era * 400;
    let mp = if m <= 2 { m + 9 } else { m - 3 };
    assert(0 <= yoe <= 399);
    assert(m <= 2 ==> (is_leap(y) <==> ends_leap(yoe)));
    lemma_month_of_year(mp, d, ends_leap(yoe));
    let doy = (153 * mp + 2) / 5 + d - 1;
    lemma_year_of_era(yoe, doy);
    let days = days_of_civil(y, m, d);
    assert(days + 719468 == era * 146097 + year_start(yoe) + doy);
    assert((days + 719468) / 146097 == era);
}

/// The date of day `doy` of March-based year `yoe` of era `era` is a date
/// whose day number is that day's.
#[verifier::spinoff_prover]
#[verifier::rlimit(40)]
proof fn lemma_date_of_day(era: int, yoe: int, doy: int)
    requires
        0 <= yoe <= 399,
        0 <= doy <= if ends_leap(yoe) { 365int } else { 364int },
    ensures
        ({
            let mp = (5 * doy + 2) / 153;
            let d = doy - (153 * mp + 2) / 5 + 1;
            let m = if mp < 10 { mp + 3 } else { mp - 9 };
            let y = yoe + era * 400 + if m <= 2 { 1int } else { 0int };
            valid_date(y, m, d) && days_of_civil(y, m, d) == era * 146097 + year_start(yoe) + doy - 719468
        }),
{
    lemma_day_of_year(doy, ends_leap(yoe));
    let mp = (5 * doy + 2) / 153;
    let d = doy - (153 * mp + 2) / 5 + 1;
    let m = if mp < 10 { mp + 3 } else { mp - 9 };
    let y = yoe + era * 400 + if m <= 2 { 1int } else { 0int };
    assert(m <= 2 ==> (is_leap(y) <==> ends_leap(yoe)));
    let y1 = if m <= 2 { y - 1 } else { y };
    assert(y1 == yoe + era * 400);
    assert(y1 / 400 == era);
    assert(y1 - (y1 / 400) * 400 == yoe);
    assert((if m <= 2 { m + 9 } else { m - 3 }) == mp);
}

/// A day number's date is a date, and gives back the day number.
pub proof fn lemma_days_round_trip(days: int)
    ensures
        valid_date(civil_of_days(days).0, civil_of_days(days).1, civil_of_days(days).2),
        days_of_civil(civil_of_days(days).0, civil_of_days(days).1, civil_of_days(days).2) == days,
{
    let z = days + 719468;
    let era = z / 146097;
    let doe = z - era * 146097;
    lemma_day_of_era(doe);
    let yoe = year_of_era(doe);
    let doy = doe - year_start(yoe);
    lemma_date_of_day(era, yoe, doy);
}

/// A date and time in UTC.
#[derive(Debug, Clone, Copy, PartialEq, Eq, PartialOrd, Ord, Structural)]
pub struct DateTimeUtc {
    pub year: i32,
    pub month: u8,
    pub day: u8,
    pub hour: u8,
    pub minute: u8,
    pub second: u8,
    pub millisecond: u16,
}

impl DateTimeUtc {
    /// A calendar date with a time of day.
    pub open spec fn valid(self) -> bool {
        &&& valid_date(self.year as int, self.month as int, self.day as int)
        &&& self.hour < 24
        &&& self.minute < 60
        &&& self.second < 60
    }
}

/// The date and time `secs` seconds after the epoch (before it when
/// negative), with the given milliseconds; the year wraps to `i32`.
pub open spec fn datetime_of_unix(secs: int, millis: u16) -> DateTimeUtc {
    let days = secs / 86400;
    let sid = secs % 86400;
    let c = civil_of_days(days);
    DateTimeUtc {
        year: c.0 as i32,
        month: c.1 as u8,
        day: c.2 as u8,
        hour: (sid / 3600) as u8,
        minute: ((sid % 3600) / 60) as u8,
        second: (sid % 60) as u8,
        millisecond: millis,
    }
}

/// The seconds since the epoch of a date and time.
pub open spec fn unix_of_datetime(t: DateTimeUtc) -> int {
    days_of_civil(t.year as int, t.month as int, t.day as int) * 86400 + t.hour * 3600 + t.minute * 60 + t.second
}

/// Reading a valid date and time as Unix time and back gives it back.
pub proof fn lemma_unix_round_trip(t: DateTimeUtc)
    requires
        t.valid(),
    ensures
        datetime_of_unix(unix_of_datetime(t), t.millisecond) == t,
{
    let days = days_of_civil(t.year as int, t.month as int, t.day as int);
    let sid = t.hour * 3600 + t.minute * 60 + t.second;
    assert(0 <= sid < 86400);
    let secs = unix_of_datetime(t);
    assert(secs == days * 86400 + sid);
    assert(secs / 86400 == days);
    assert(secs % 86400 == sid);
    lemma_civil_round_trip(t.year as int, t.month as int, t.day as int);
}

/// Unix time read as a date and time is a valid one and gives the same
/// Unix time back, when its year fits.
pub proof fn lemma_datetime_round_trip(secs: int, millis: u16)
    requires
        i32::MIN <= civil_of_days(secs / 86400).0 <= i32::MAX,
    ensures
        datetime_of_unix(secs, millis).valid(),
        unix_of_datetime(datetime_of_unix(secs, millis)) == secs,
{
    let days = secs / 86400;
    lemma_days_round_trip(days);
    let c = civil_of_days(days);
    let t = datetime_of_unix(secs, millis);
    assert(t.year as int == c.0 && t.month as int == c.1 && t.day as int == c.2);
    let sid = secs % 86400;
    assert(secs == days * 86400 + sid);
}

/// `x / k` rounded down, and the remainder, in `0..k`.
fn floor_div_mod(x: i64, k: i64) -> (r: (i64, i64))
    requires
        0 < k <= 1_000_000,
    ensures
        r.0 == x as int / k as int,
        r.1 == x as int % k as int,
        r.0 * k <= x < r.0 * k + k,
        0 <= r.1 < k,
{
    if x >= 0 {
        let q = ((x as u64) / (k as u64)) as i64;
        let m = ((x as u64) % (k as u64)) as i64;
        assert(q * k + m == x && 0 <= m < k) by (nonlinear_arith)
            requires
                q == x as int / k as int,
                m == x as int % k as int,
                k > 0,
                x >= 0;
        (q, m)
    } else {
        let t = (-(x + 1)) as u64;
        let tq = t / (k as u64);
        let tm = t % (k as u64);
        let q = -(tq as i64) - 1;
        let m = k - 1 - (tm as i64);
        assert(tq * k + tm == t && 0 <= tm < k) by (nonlinear_arith)
            requires
                tq == t as int / k as int,
                tm == t as int % k as int,
                k > 0;
        assert(q * k + m == x) by (nonlinear_arith)
            requires
                q == -tq - 1,
                m == k - 1 - tm,
                tq * k + tm == t,
                t == -(x + 1);
        assert(q == x as int / k as int && m == x as int % k as int) by (nonlinear_arith)
            requires
                q * k + m == x,
                0 <= m < k,
                k > 0;
        assert(q * k <= x < q * k + k);
        (q, m)
    }
}

impl DateTimeUtc {
    /// The date and time `secs` seconds after the epoch, with `millis`
    /// milliseconds (see `datetime_of_unix`).
    pub fn from_unix_secs_and_millis(secs: i64, millis: u16) -> (r: DateTimeUtc)
        ensures
            r == datetime_of_unix(secs as int, millis),
    {
        let (days, sid_i) = floor_div_mod(secs, 86400);
        let sid = sid_i as u64;
        let hour = (sid / 3600) as u8;
        let minute = ((sid % 3600) / 60) as u8;
        let second = (sid % 60) as u8;
        let z = days + 719468;
        let (era, doe_i) = floor_div_mod(z, 146097);
        let doe = doe_i as u64;
        assert(doe == z - era * 146097);
        proof { lemma_day_of_era(doe as int); }
        let yoe: u64 = (doe - doe / 1460 + doe / 36524 - doe / 146096) / 365;
        assert(yoe == year_of_era(doe as int));
        let doy: u64 = doe - (365 * yoe + yoe / 4 - yoe / 100);
        proof { lemma_day_of_year(doy as int, ends_leap(yoe as int)); }
        let mp: u64 = (5 * doy + 2) / 153;
        let d: u64 = doy - (153 * mp + 2) / 5 + 1;
        let m: u64 = if mp < 10 { mp + 3 } else { mp - 9 };
        let y0: i64 = yoe as i64 + era * 400;
        let y: i64 = if m <= 2 { y0 + 1 } else { y0 };
        DateTimeUtc {
            year: #[verifier::truncate] (y as i32),
            month: m as u8,
            day: d as u8,
            hour,
            minute,
            second,
            millisecond: millis,
        }
    }

    /// The seconds since the epoch and the milliseconds (see
    /// `unix_of_datetime`).
    pub fn to_unix_secs_and_millis(&self) -> (r: (i64, u16))
        ensures
            r.0 == unix_of_datetime(*self),
            r.1 == self.millisecond,
            -100_000_000_000_000_000 < r.0 < 100_000_000_000_000_000,
    {
        let y: i64 = if self.month <= 2 { self.year as i64 - 1 } else { self.year as i64 };
        let m: i64 = if self.month <= 2 { self.month as i64 + 9 } else { self.month as i64 - 3 };
        let (era, yoe_i) = floor_div_mod(y, 400);
        let yoe = yoe_i as u64;
        let cum = ((153 * (m as u64) + 2) / 5) as i64;
        let doy: i64 = cum + self.day as i64 - 1;
        let doe: i64 = (yoe * 365 + yoe / 4 - yoe / 100) as i64 + doy;
        let days: i64 = era * 146097 + doe - 719468;
        let secs = days * 86400 + self.hour as i64 * 3600 + self.minute as i64 * 60 + self.second as i64;
        (secs, self.millisecond)
    }
}

/// `YYYY-MM-DDTHH:MM:SS` as `{:04}-{:02}-{:02}T{:02}:{:02}:{:02}` prints it.
pub open spec fn stamp_text(t: DateTimeUtc) -> Seq<char> {
    signed_padded(t.year as int, 4) + "-"@ + dec_padded(t.month as nat, 2) + "-"@ + dec_padded(t.day as nat, 2) + "T"@
        + dec_padded(t.hour as nat, 2) + ":"@ + dec_padded(t.minute as nat, 2) + ":"@ + dec_padded(t.second as nat, 2)
}

#[verifier::rlimit(40)]
fn push_stamp(out: &mut String, t: &DateTimeUtc)
    ensures
        final(out)@ == old(out)@ + stamp_text(*t),
{
    push_signed_padded(out, t.year as i64, 4);
    push_str(out, "-");
    push_decimal_padded(out, t.month as u64, 2);
    push_str(out, "-");
    push_decimal_padded(out, t.day as u64, 2);
    push_str(out, "T");
    push_decimal_padded(out, t.hour as u64, 2);
    push_str(out, ":");
    push_decimal_padded(out, t.minute as u64, 2);
    push_str(out, ":");
    push_decimal_padded(out, t.second as u64, 2);
}

impl DateTimeUtc {
    /// RFC 3339 text in UTC: `YYYY-MM-DDTHH:MM:SSZ`.
    pub fn to_rfc3339(&self) -> (s: String)
        ensures
            s@ == stamp_text(*self) + "Z"@,
    {
        let mut s = String::new();
        push_stamp(&mut s, self);
        push_str(&mut s, "Z");
        s
    }

    /// RFC 3339 text in UTC with milliseconds: `YYYY-MM-DDTHH:MM:SS.mmmZ`.
    pub fn to_rfc3339_millis(&self) -> (s: String)
        ensures
            s@ == stamp_text(*self) + "."@ + dec_padded(self.millisecond as nat, 3) + "Z"@,
    {
        let mut s = String::new();
        push_stamp(&mut s, self);
        push_str(&mut s, ".");
        push_decimal_padded(&mut s, self.millisecond as u64, 3);
        push_str(&mut s, "Z");
        s
    }
}

/// A decimal digit byte.
pub open spec fn digit_byte(b: u8) -> bool {
    48 <= b <= 57
}

/// The value of a run of digit bytes.
pub open spec fn digits_num(t: Seq<u8>) -> int
    decreases t.len(),
{
    if t.len() == 0 { 0 } else { digits_num(t.drop_last()) * 10 + (t.last() - 48) }
}

/// Whether every byte is a digit.
pub open spec fn all_digit_bytes(t: Seq<u8>) -> bool {
    forall|i: int| 0 <= i < t.len() ==> digit_byte(#[trigger] t[i])
}

/// Whether a field starts with a sign that `from_str` takes: `+`, or `-`
/// where allowed.
pub open spec fn field_negative(t: Seq<u8>, minus_ok: bool) -> bool {
    t.len() > 0 && t[0] == 45u8 && minus_ok
}

/// The digits of a field, after its sign.
pub open spec fn field_digits(t: Seq<u8>, minus_ok: bool) -> Seq<u8> {
    if t.len() > 0 && (t[0] == 43u8 || field_negative(t, minus_ok)) { t.drop_first() } else { t }
}

/// An integer as `from_str` reads it from a short field: an optional `+`
/// (or `-` where allowed), then one or more digits.
pub open spec fn number_field(t: Seq<u8>, minus_ok: bool) -> Option<int> {
    let ds = field_digits(t, minus_ok);
    if ds.len() > 0 && all_digit_bytes(ds) {
        Some(if field_negative(t, minus_ok) { -digits_num(ds) } else { digits_num(ds) })
    } else {
        None
    }
}

/// The end of the run of digit bytes at `i`.
pub open spec fn digit_run(t: Seq<u8>, i: int) -> int
    decreases t.len() - i,
{
    if 0 <= i < t.len() && digit_byte(t[i]) { digit_run(t, i + 1) } else { i }
}

/// Milliseconds from fraction digits: the first three, scaled as a fraction.
pub open spec fn frac_millis(f: Seq<u8>) -> int {
    if f.len() == 0 {
        0
    } else if f.len() == 1 {
        digits_num(f) * 100
    } else if f.len() == 2 {
        digits_num(f) * 10
    } else {
        digits_num(f.subrange(0, 3))
    }
}

/// The offset in seconds named by what follows the seconds (and fraction):
/// none for `Z`, `z`, nothing or anything unrecognized; `±HH?MM` (at least
/// six bytes) counts; `None` when its numbers do not read.
pub open spec fn offset_secs(rem: Seq<u8>) -> Option<int> {
    if rem == seq![90u8] || rem == seq![122u8] || rem.len() == 0 {
        Some(0)
    } else if (rem[0] == 43u8 || rem[0] == 45u8) && rem.len() >= 6 {
        match (number_field(rem.subrange(1, 3), true), number_field(rem.subrange(4, 6), true)) {
            (Some(oh), Some(om)) => Some(if rem[0] == 45u8 { -(oh * 3600 + om * 60) } else { oh * 3600 + om * 60 }),
            _ => None,
        }
    } else {
        Some(0)
    }
}

/// RFC 3339 / ISO 8601 text (trimmed bytes) as Unix seconds in UTC and
/// milliseconds: `YYYY-MM-DD`, `T`, `t` or a space, `HH:MM:SS`, an optional
/// `.fff`, and an optional offset. Fields are not range-checked.
pub open spec fn rfc3339_parts(b: Seq<u8>) -> Option<(int, int)> {
    if b.len() < 19 {
        None
    } else {
        let y = number_field(b.subrange(0, 4), true);
        let mo = number_field(b.subrange(5, 7), false);
        let d = number_field(b.subrange(8, 10), false);
        let h = number_field(b.subrange(11, 13), false);
        let mi = number_field(b.subrange(14, 16), false);
        let se = number_field(b.subrange(17, 19), false);
        let seps = b[4] == 45u8 && b[7] == 45u8 && (b[10] == 84u8 || b[10] == 116u8 || b[10] == 32u8) && b[13] == 58u8 && b[16] == 58u8;
        let rest = b.subrange(19, b.len() as int);
        let fe = if rest.len() > 0 && rest[0] == 46u8 { digit_run(rest, 1) } else { 0 };
        let ms = if fe > 0 { frac_millis(rest.subrange(1, fe)) } else { 0 };
        let rem = rest.subrange(fe, rest.len() as int);
        if y is Some && mo is Some && d is Some && h is Some && mi is Some && se is Some && seps && offset_secs(rem) is Some {
            let t = DateTimeUtc {
                year: y->0 as i32,
                month: mo->0 as u8,
                day: d->0 as u8,
                hour: h->0 as u8,
                minute: mi->0 as u8,
                second: se->0 as u8,
                millisecond: ms as u16,
            };
            Some((unix_of_datetime(t) - offset_secs(rem)->0, ms))
        } else {
            None
        }
    }
}

/// Text of ASCII characters encodes to one byte per character, its code.
proof fn lemma_ascii_encode(s: Seq<char>)
    requires
        forall|k: int| 0 <= k < s.len() ==> ((#[trigger] s[k]) as u32) < 128,
    ensures
        encode_utf8(s).len() == s.len(),
        forall|k: int| 0 <= k < s.len() ==> encode_utf8(s)[k] == ((#[trigger] s[k]) as u32) as u8,
    decreases s.len(),
{
    if s.len() > 0 {
        let c = s[0];
        let u = c as u32;
        assert(u < 128);
        assert((u & 0x7F) == u) by (bit_vector)
            requires
                u < 128,
        ;
        assert forall|k: int| 0 <= k < s.drop_first().len() implies ((#[trigger] s.drop_first()[k]) as u32) < 128 by {
            assert(s.drop_first()[k] == s[k + 1]);
        }
        lemma_ascii_encode(s.drop_first());
        assert(vstd::utf8::encode_scalar(u) =~= seq![u as u8]);
        assert forall|k: int| 0 <= k < s.len() implies encode_utf8(s)[k] == ((#[trigger] s[k]) as u32) as u8 by {
            if k > 0 {
                assert(s[k] == s.drop_first()[k - 1]);
            }
        }
    }
}

/// The code of a decimal digit's character.
proof fn lemma_digit_code(n: nat)
    requires
        n < 10,
    ensures
        (crate::text::digit_char(n) as u32) == 48 + n,
{
}

/// Two-digit fields print as their two digits.
proof fn lemma_dec2(v: nat)
    requires
        v < 100,
    ensures
        dec_padded(v, 2) == seq![crate::text::digit_char(v / 10), crate::text::digit_char(v % 10)],
{
    reveal_with_fuel(crate::text::dec, 2);
    if v < 10 {
        assert(crate::text::dec(v) == seq![crate::text::digit_char(v)]);
        assert(dec_padded(v, 2) =~= seq![crate::text::digit_char(v / 10), crate::text::digit_char(v % 10)]);
    } else {
        assert(crate::text::dec(v) =~= seq![crate::text::digit_char(v / 10), crate::text::digit_char(v % 10)]);
    }
}

/// Four-digit fields print as their four digits.
proof fn lemma_dec4(v: nat)
    requires
        v < 10000,
    ensures
        dec_padded(v, 4) == seq![crate::text::digit_char(v / 1000), crate::text::digit_char(v / 100 % 10),
            crate::text::digit_char(v / 10 % 10), crate::text::digit_char(v % 10)],
{
    reveal_with_fuel(crate::text::dec, 4);
    let want = seq![crate::text::digit_char(v / 1000), crate::text::digit_char(v / 100 % 10),
        crate::text::digit_char(v / 10 % 10), crate::text::digit_char(v % 10)];
    if v < 10 {
        assert(dec_padded(v, 4) =~= want);
    } else if v < 100 {
        assert(crate::text::dec(v / 10) == seq![crate::text::digit_char(v / 10)]);
        assert(dec_padded(v, 4) =~= want);
    } else if v < 1000 {
        assert(crate::text::dec(v / 100) == seq![crate::text::digit_char(v / 100)]);
        assert((v / 10) / 10 == v / 100);
        assert(crate::text::dec(v / 10) =~= seq![crate::text::digit_char(v / 100), crate::text::digit_char(v / 10 % 10)]);
        assert(dec_padded(v, 4) =~= want);
    } else {
        assert((v / 10) / 10 == v / 100);
        assert((v / 100) / 10 == v / 1000);
        assert(v / 100 % 10 == (v / 10) / 10 % 10);
        assert(crate::text::dec(v / 1000) == seq![crate::text::digit_char(v / 1000)]);
        assert(crate::text::dec(v / 100) =~= seq![crate::text::digit_char(v / 1000), crate::text::digit_char(v / 100 % 10)]);
        assert(crate::text::dec(v / 10) =~= seq![crate::text::digit_char(v / 1000), crate::text::digit_char(v / 100 % 10),
            crate::text::digit_char(v / 10 % 10)]);
        assert(dec_padded(v, 4) =~= want);
    }
}


proof fn lemma_field2(b: Seq<u8>, v: nat, minus_ok: bool)
    requires
        v < 100,
        b == seq![(48 + v / 10) as u8, (48 + v % 10) as u8],
    ensures
        number_field(b, minus_ok) == Some(v as int),
{
    reveal_with_fuel(digits_num, 3);
    assert(field_digits(b, minus_ok) == b);
    assert(b.drop_last() =~= seq![(48 + v / 10) as u8]);
    assert(b.drop_last().drop_last() =~= Seq::<u8>::empty());
    assert(digits_num(b) == (v / 10) * 10 + v % 10);
    assert(all_digit_bytes(b));
}

proof fn lemma_field4(b: Seq<u8>, v: nat)
    requires
        v < 10000,
        b == seq![(48 + v / 1000) as u8, (48 + v / 100 % 10) as u8, (48 + v / 10 % 10) as u8, (48 + v % 10) as u8],
    ensures
        number_field(b, true) == Some(v as int),
{
    reveal_with_fuel(digits_num, 5);
    assert(field_digits(b, true) == b);
    let b3 = b.drop_last();
    let b2 = b3.drop_last();
    let b1 = b2.drop_last();
    assert(b1 =~= seq![(48 + v / 1000) as u8]);
    assert(b1.drop_last() =~= Seq::<u8>::empty());
    assert(digits_num(b1) == v / 1000);
    assert(digits_num(b2) == (v / 1000) * 10 + v / 100 % 10);
    assert(digits_num(b3) == ((v / 1000) * 10 + v / 100 % 10) * 10 + v / 10 % 10);
    assert((((v / 1000) * 10 + v / 100 % 10) * 10 + v / 10 % 10) * 10 + v % 10 == v) by (nonlinear_arith)
        requires v < 10000;
    assert(all_digit_bytes(b));
}

/// The bytes of the RFC 3339 text of a date and time (years 0 to 9999).
#[verifier::spinoff_prover]
#[verifier::rlimit(80)]
proof fn lemma_stamp_bytes(d: DateTimeUtc)
    requires
        0 <= d.year <= 9999,
        d.month < 100,
        d.day < 100,
        d.hour < 100,
        d.minute < 100,
        d.second < 100,
    ensures
        ({
            let y = d.year as nat;
            encode_utf8(trim_ws(stamp_text(d) + "Z"@)) == seq![
                (48 + y / 1000) as u8, (48 + y / 100 % 10) as u8, (48 + y / 10 % 10) as u8, (48 + y % 10) as u8, 45u8,
                (48 + d.month / 10) as u8, (48 + d.month % 10) as u8, 45u8,
                (48 + d.day / 10) as u8, (48 + d.day % 10) as u8, 84u8,
                (48 + d.hour / 10) as u8, (48 + d.hour % 10) as u8, 58u8,
                (48 + d.minute / 10) as u8, (48 + d.minute % 10) as u8, 58u8,
                (48 + d.second / 10) as u8, (48 + d.second % 10) as u8, 90u8]
        }),
{
    reveal_strlit("-");
    reveal_strlit("T");
    reveal_strlit(":");
    reveal_strlit("Z");
    let y = d.year as nat;
    let mo = d.month as nat;
    let da = d.day as nat;
    let h = d.hour as nat;
    let mi = d.minute as nat;
    let se = d.second as nat;
    lemma_dec4(y);
    lemma_dec2(mo);
    lemma_dec2(da);
    lemma_dec2(h);
    lemma_dec2(mi);
    lemma_dec2(se);
    let s = stamp_text(d) + "Z"@;
    let want = seq![
        digit_char(y / 1000), digit_char(y / 100 % 10), digit_char(y / 10 % 10), digit_char(y % 10), '-',
        digit_char(mo / 10), digit_char(mo % 10), '-', digit_char(da / 10), digit_char(da % 10), 'T',
        digit_char(h / 10), digit_char(h % 10), ':', digit_char(mi / 10), digit_char(mi % 10), ':',
        digit_char(se / 10), digit_char(se % 10), 'Z'];
    assert(signed_padded(d.year as int, 4) == dec_padded(y, 4));
    assert(s =~= want);
    lemma_digit_code(y / 1000);
    lemma_digit_code(y / 100 % 10);
    lemma_digit_code(y / 10 % 10);
    lemma_digit_code(y % 10);
    lemma_digit_code(mo / 10);
    lemma_digit_code(mo % 10);
    lemma_digit_code(da / 10);
    lemma_digit_code(da % 10);
    lemma_digit_code(h / 10);
    lemma_digit_code(h % 10);
    lemma_digit_code(mi / 10);
    lemma_digit_code(mi % 10);
    lemma_digit_code(se / 10);
    lemma_digit_code(se % 10);
    assert(!is_ws(s[0]));
    assert(trim_start_ws(s) == s);
    assert(!is_ws(s.last()));
    assert(trim_end_ws(s) == s);
    assert forall|k: int| 0 <= k < s.len() implies ((#[trigger] s[k]) as u32) < 128 by {
        assert(s[k] == want[k]);
    }
    lemma_ascii_encode(s);
    let wb = seq![
        (48 + y / 1000) as u8, (48 + y / 100 % 10) as u8, (48 + y / 10 % 10) as u8, (48 + y % 10) as u8, 45u8,
        (48 + d.month / 10) as u8, (48 + d.month % 10) as u8, 45u8,
        (48 + d.day / 10) as u8, (48 + d.day % 10) as u8, 84u8,
        (48 + d.hour / 10) as u8, (48 + d.hour % 10) as u8, 58u8,
        (48 + d.minute / 10) as u8, (48 + d.minute % 10) as u8, 58u8,
        (48 + d.second / 10) as u8, (48 + d.second % 10) as u8, 90u8];
    assert forall|k: int| 0 <= k < 20 implies encode_utf8(s)[k] == #[trigger] wb[k] by {
        assert(s[k] == want[k]);
    }
    assert(encode_utf8(s) =~= wb);
}

/// Reading the RFC 3339 text of a date and time (years 0 to 9999) gives
/// its Unix time back, with no milliseconds.
#[verifier::spinoff_prover]
pub proof fn lemma_rfc3339_round_trip(d: DateTimeUtc)
    requires
        d.valid(),
        0 <= d.year <= 9999,
    ensures
        rfc3339_parts(encode_utf8(trim_ws(stamp_text(d) + "Z"@))) == Some((unix_of_datetime(d), 0int)),
{
    assert(d.day < 100) by {
        assert(days_in_month(d.year as int, d.month as int) <= 31);
    }
    lemma_stamp_bytes(d);
    let b = encode_utf8(trim_ws(stamp_text(d) + "Z"@));
    let y = d.year as nat;
    assert(b.subrange(0, 4) =~= seq![(48 + y / 1000) as u8, (48 + y / 100 % 10) as u8, (48 + y / 10 % 10) as u8, (48 + y % 10) as u8]);
    lemma_field4(b.subrange(0, 4), y);
    assert(b.subrange(5, 7) =~= seq![(48 + d.month / 10) as u8, (48 + d.month % 10) as u8]);
    lemma_field2(b.subrange(5, 7), d.month as nat, false);
    assert(b.subrange(8, 10) =~= seq![(48 + d.day / 10) as u8, (48 + d.day % 10) as u8]);
    lemma_field2(b.subrange(8, 10), d.day as nat, false);
    assert(b.subrange(11, 13) =~= seq![(48 + d.hour / 10) as u8, (48 + d.hour % 10) as u8]);
    lemma_field2(b.subrange(11, 13), d.hour as nat, false);
    assert(b.subrange(14, 16) =~= seq![(48 + d.minute / 10) as u8, (48 + d.minute % 10) as u8]);
    lemma_field2(b.subrange(14, 16), d.minute as nat, false);
    assert(b.subrange(17, 19) =~= seq![(48 + d.second / 10) as u8, (48 + d.second % 10) as u8]);
    lemma_field2(b.subrange(17, 19), d.second as nat, false);
    let rest = b.subrange(19, 20);
    assert(rest =~= seq![90u8]);
    assert(rest.subrange(0, 1) =~= seq![90u8]);
    let t = DateTimeUtc { millisecond: 0, ..d };
    assert(unix_of_datetime(t) == unix_of_datetime(d));
}

fn number_field_exec(b: &[u8], from: usize, to: usize, minus_ok: bool) -> (r: Option<i64>)
    requires
        from <= to <= b@.len(),
        to - from <= 4,
    ensures
        match r {
            Some(v) => number_field(b@.subrange(from as int, to as int), minus_ok) == Some(v as int),
            None => number_field(b@.subrange(from as int, to as int), minus_ok) is None,
        },
        r matches Some(v) ==> -10000 < v < 10000,
{
    let ghost t = b@.subrange(from as int, to as int);
    if from == to {
        return None;
    }
    assert(t.len() > 0 && t[0] == b@[from as int]);
    let neg = b[from] == 45u8 && minus_ok;
    let signed = b[from] == 43u8 || neg;
    let start = if signed { from + 1 } else { from };
    let ghost ds = if signed { t.drop_first() } else { t };
    assert(ds =~= b@.subrange(start as int, to as int));
    if start == to {
        return None;
    }
    let mut v: i64 = 0;
    let mut i = start;
    while i < to
        invariant
            start <= i <= to <= b@.len(),
            to - start <= 4,
            ds == b@.subrange(start as int, to as int),
            from <= start,
            from < to,
            t == b@.subrange(from as int, to as int),
            t.len() > 0,
            neg == field_negative(t, minus_ok),
            ds == field_digits(t, minus_ok),
            forall|k: int| 0 <= k < i - start ==> digit_byte(#[trigger] ds[k]),
            v == digits_num(ds.subrange(0, i - start)),
            0 <= v < 10000,
            v < if i - start == 0 { 1int } else if i - start == 1 { 10int } else if i - start == 2 { 100int } else if i - start == 3 { 1000int } else { 10000int },
        decreases to - i,
    {
        let c = b[i];
        if !(48u8 <= c && c <= 57u8) {
            assert(ds[i - start] == c);
            assert(!digit_byte(ds[i - start]));
            assert(!all_digit_bytes(ds));
            return None;
        }
        assert(ds.subrange(0, i + 1 - start).drop_last() =~= ds.subrange(0, i - start));
        assert(ds[i - start] == c);
        v = v * 10 + (c - 48u8) as i64;
        i += 1;
    }
    assert(ds.subrange(0, i - start) =~= ds);
    assert(all_digit_bytes(ds));
    if neg { Some(-v) } else { Some(v) }
}

/// Reads the fraction that may follow the seconds at byte 19: where what
/// follows it starts (relative to byte 19) and its milliseconds.
fn fraction_exec(b: &[u8]) -> (r: (usize, u64))
    requires
        19 <= b@.len(),
    ensures
        ({
            let rest = b@.subrange(19, b@.len() as int);
            let fe = if rest.len() > 0 && rest[0] == 46u8 { digit_run(rest, 1) } else { 0 };
            &&& r.0 == fe
            &&& r.1 == if fe > 0 { frac_millis(rest.subrange(1, fe)) } else { 0 }
        }),
        19 + r.0 <= b@.len(),
        r.1 < 1000,
{
    let n = b.len();
    let ghost rest = b@.subrange(19, n as int);
    if !(n > 19 && b[19] == 46u8) {
        return (0, 0);
    }
    assert(rest[0] == b@[19]);
    let mut k: usize = 20;
    while k < n && 48u8 <= b[k] && b[k] <= 57u8
        invariant
            20 <= k <= n == b@.len(),
            rest == b@.subrange(19, n as int),
            digit_run(rest, k - 19) == digit_run(rest, 1),
        decreases n - k,
    {
        assert(rest[k - 19] == b@[k as int]);
        k += 1;
    }
    assert(k < n ==> rest[k - 19] == b@[k as int]);
    let fe = k - 19;
    let ghost f = rest.subrange(1, fe as int);
    let cnt = if fe - 1 > 3 { 3 } else { fe - 1 };
    proof {
        assert forall|x: int| 0 <= x < f.len() implies digit_byte(#[trigger] f[x]) by {
            lemma_digit_run(rest, 1, x + 1);
            assert(f[x] == rest[x + 1]);
        }
    }
    let mut ms: u64 = 0;
    let mut j: usize = 0;
    while j < cnt
        invariant
            j <= cnt <= 3,
            cnt <= fe - 1,
            fe == k - 19,
            20 <= k <= n == b@.len(),
            f == b@.subrange(20, k as int),
            forall|x: int| 0 <= x < f.len() ==> digit_byte(#[trigger] f[x]),
            ms == digits_num(f.subrange(0, j as int)),
            ms < if j == 0 { 1int } else if j == 1 { 10int } else if j == 2 { 100int } else { 1000int },
        decreases cnt - j,
    {
        assert(f.subrange(0, j + 1).drop_last() =~= f.subrange(0, j as int));
        assert(f[j as int] == b@[20 + j]);
        ms = ms * 10 + (b[20 + j] - 48u8) as u64;
        j += 1;
    }
    if cnt == 1 {
        assert(f.subrange(0, 1) =~= f);
        ms = ms * 100;
    } else if cnt == 2 {
        assert(f.subrange(0, 2) =~= f);
        ms = ms * 10;
    }
    (fe, ms)
}

/// Reads the offset that starts at byte `rs` (see `offset_secs`).
fn offset_exec(b: &[u8], rs: usize) -> (r: Option<i64>)
    requires
        rs <= b@.len(),
    ensures
        match r {
            Some(o) => offset_secs(b@.subrange(rs as int, b@.len() as int)) == Some(o as int),
            None => offset_secs(b@.subrange(rs as int, b@.len() as int)) is None,
        },
        r matches Some(o) ==> -100_000_000 < o < 100_000_000,
{
    let n = b.len();
    let ghost rem = b@.subrange(rs as int, n as int);
    assert(rem.len() > 0 ==> rem[0] == b@[rs as int]);
    if n - rs == 0 || (n - rs == 1 && (b[rs] == 90u8 || b[rs] == 122u8)) {
        proof {
            if n - rs == 1 {
                if b[rs as int] == 90u8 {
                    assert(rem =~= seq![90u8]);
                } else {
                    assert(rem =~= seq![122u8]);
                }
            } else {
                assert(rem.len() == 0);
            }
            assert(offset_secs(rem) == Some(0int));
        }
        Some(0)
    } else if (b[rs] == 43u8 || b[rs] == 45u8) && n - rs >= 6 {
        assert(rem != seq![90u8] && rem != seq![122u8]);
        let oh = number_field_exec(b, rs + 1, rs + 3, true);
        let om = number_field_exec(b, rs + 4, rs + 6, true);
        assert(rem.subrange(1, 3) =~= b@.subrange(rs + 1, rs + 3));
        assert(rem.subrange(4, 6) =~= b@.subrange(rs + 4, rs + 6));
        match (oh, om) {
            (Some(x), Some(z)) => {
                let o = if b[rs] == 45u8 { -(x * 3600 + z * 60) } else { x * 3600 + z * 60 };
                assert(offset_secs(rem) == Some(o as int));
                Some(o)
            },
            _ => None,
        }
    } else {
        proof {
            if rem == seq![90u8] || rem == seq![122u8] {
                assert(rem.len() == 1);
            }
            assert(offset_secs(rem) == Some(0int));
        }
        Some(0)
    }
}

/// Unix seconds in UTC and milliseconds of RFC 3339 text (see
/// `rfc3339_parts`, on the trimmed text's bytes).
pub fn parse_rfc3339(s: &str) -> (r: Option<(i64, u16)>)
    ensures
        match r {
            Some(p) => rfc3339_parts(encode_utf8(trim_ws(s@))) == Some((p.0 as int, p.1 as int)),
            None => rfc3339_parts(encode_utf8(trim_ws(s@))) is None,
        },
{
    let t = trim_str(s);
    let b = t.as_str().as_bytes();
    let n = b.len();
    if n < 19 {
        return None;
    }
    let y = number_field_exec(b, 0, 4, true);
    let mo = number_field_exec(b, 5, 7, false);
    let d = number_field_exec(b, 8, 10, false);
    let h = number_field_exec(b, 11, 13, false);
    let mi = number_field_exec(b, 14, 16, false);
    let se = number_field_exec(b, 17, 19, false);
    let seps = b[4] == 45u8 && b[7] == 45u8 && (b[10] == 84u8 || b[10] == 116u8 || b[10] == 32u8) && b[13] == 58u8 && b[16] == 58u8;
    let (fe, ms) = fraction_exec(b);
    let ghost rest = b@.subrange(19, n as int);
    let ghost rem = rest.subrange(fe as int, rest.len() as int);
    assert(rem =~= b@.subrange(19 + fe, n as int));
    let off = offset_exec(b, 19 + fe);
    match (y, mo, d, h, mi, se, off) {
        (Some(y), Some(mo), Some(d), Some(h), Some(mi), Some(se), Some(o)) => {
            if !seps {
                return None;
            }
            let t = DateTimeUtc {
                year: #[verifier::truncate] (y as i32),
                month: #[verifier::truncate] (mo as u8),
                day: #[verifier::truncate] (d as u8),
                hour: #[verifier::truncate] (h as u8),
                minute: #[verifier::truncate] (mi as u8),
                second: #[verifier::truncate] (se as u8),
                millisecond: ms as u16,
            };
            let (secs, m) = t.to_unix_secs_and_millis();
            Some((secs - o, m))
        },
        _ => None,
    }
}

proof fn lemma_digit_run(t: Seq<u8>, i: int, j: int)
    requires
        0 <= i <= j < digit_run(t, i),
    ensures
        digit_byte(t[j]),
    decreases j - i,
{
    if i < j {
        lemma_digit_run(t, i + 1, j);
    }
}

proof fn lemma_digit_run_bounds(t: Seq<u8>, i: int)
    requires
        0 <= i <= t.len(),
    ensures
        i <= digit_run(t, i) <= t.len(),
        digit_run(t, i) < t.len() ==> !digit_byte(t[digit_run(t, i)]),
    decreases t.len() - i,
{
    if i < t.len() && digit_byte(t[i]) {
        lemma_digit_run_bounds(t, i + 1);
    }
}

/// The `k`-th digit (from 0) of a timestamp's fraction, the digits right
/// after a `.` that follows the seconds; 0 past the last of them.
pub open spec fn fraction_digit(b: Seq<u8>, k: int) -> int {
    if 20 + k < b.len() && forall|j: int| 20 <= j <= 20 + k ==> #[trigger] digit_byte(b[j]) {
        b[20 + k] - 48
    } else {
        0
    }
}

/// Law: the milliseconds of a parsed timestamp are its fraction of a second
/// cut to whole milliseconds: tenths times 100, plus hundredths times 10,
/// plus thousandths, however many digits are written (the digits `25`,
/// `250` and `2509` after the point all give 250 ms); without a fraction
/// they are 0.
pub proof fn lemma_fraction_millis(b: Seq<u8>)
    requires
        rfc3339_parts(b) is Some,
    ensures
        (rfc3339_parts(b)->0).1 == if b.len() > 19 && b[19] == 46u8 {
            fraction_digit(b, 0) * 100 + fraction_digit(b, 1) * 10 + fraction_digit(b, 2)
        } else {
            0
        },
{
    let rest = b.subrange(19, b.len() as int);
    if rest.len() > 0 && rest[0] == 46u8 {
        lemma_digit_run_bounds(rest, 1);
        let fe = digit_run(rest, 1);
        let f = rest.subrange(1, fe);
        assert forall|j: int| 0 <= j < f.len() implies digit_byte(#[trigger] f[j]) by {
            lemma_digit_run(rest, 1, j + 1);
        }
        assert forall|k: int| 0 <= k <= 2 implies fraction_digit(b, k) == if k < f.len() { f[k] - 48 } else { 0 } by {
            if k < f.len() {
                assert forall|j: int| 20 <= j <= 20 + k implies #[trigger] digit_byte(b[j]) by {
                    assert(b[j] == f[j - 20]);
                }
            } else {
                let j = 19 + fe;
                if 20 + k < b.len() {
                    assert(j < b.len());
                    assert(b[j] == rest[fe]);
                    assert(!digit_byte(b[j]));
                }
            }
        }
        let d0 = if f.len() > 0 { f[0] - 48 } else { 0 };
        let d1 = if f.len() > 1 { f[1] - 48 } else { 0 };
        let d2 = if f.len() > 2 { f[2] - 48 } else { 0 };
        if f.len() >= 1 {
            assert(f.subrange(0, 1).drop_last() =~= Seq::<u8>::empty());
            assert(digits_num(Seq::<u8>::empty()) == 0);
            assert(f.subrange(0, 1).last() == f[0]);
            assert(digits_num(f.subrange(0, 1)) == d0);
        }
        if f.len() >= 2 {
            assert(f.subrange(0, 2).drop_last() =~= f.subrange(0, 1));
            assert(f.subrange(0, 2).last() == f[1]);
            assert(digits_num(f.subrange(0, 2)) == d0 * 10 + d1);
        }
        if f.len() >= 3 {
            assert(f.subrange(0, 3).drop_last() =~= f.subrange(0, 2));
            assert(f.subrange(0, 3).last() == f[2]);
            assert(digits_num(f.subrange(0, 3)) == d0 * 100 + d1 * 10 + d2);
        }
        if f.len() == 1 {
            assert(f =~= f.subrange(0, 1));
        } else if f.len() == 2 {
            assert(f =~= f.subrange(0, 2));
        }
        assert(frac_millis(f) == d0 * 100 + d1 * 10 + d2);
    }
}

/// The six bytes of a UTC offset: its sign, two hour digits, `:`, two
/// minute digits.
pub open spec fn offset_bytes(minus: bool, hh: nat, mm: nat) -> Seq<u8> {
    seq![if minus { 45u8 } else { 43u8 }, (48 + hh / 10) as u8, (48 + hh % 10) as u8, 58u8,
        (48 + mm / 10) as u8, (48 + mm % 10) as u8]
}

/// Law: a timestamp with an offset `+hh:mm` names the instant `hh` hours
/// and `mm` minutes before the same wall-clock time in UTC (`Z`), and one
/// with `-hh:mm` the instant that long after it.
pub proof fn lemma_offset_shifts(p: Seq<u8>, minus: bool, hh: nat, mm: nat)
    requires
        p.len() == 19,
        hh < 100,
        mm < 100,
        rfc3339_parts(p.push(90u8)) is Some,
    ensures
        rfc3339_parts(p + offset_bytes(minus, hh, mm)) == Some((
            (rfc3339_parts(p.push(90u8))->0).0 + if minus { (hh * 3600 + mm * 60) as int } else { -(hh * 3600 + mm * 60) },
            0int,
        )),
{
    let z = p.push(90u8);
    let b = p + offset_bytes(minus, hh, mm);
    let o = offset_bytes(minus, hh, mm);
    assert(b.subrange(0, 19) =~= p);
    assert(z.subrange(0, 19) =~= p);
    assert forall|i: int, j: int| 0 <= i <= j <= 19 implies #[trigger] b.subrange(i, j) == #[trigger] z.subrange(i, j) by {
        assert(b.subrange(i, j) =~= p.subrange(i, j));
        assert(z.subrange(i, j) =~= p.subrange(i, j));
    }
    let rz = z.subrange(19, z.len() as int);
    let rb = b.subrange(19, b.len() as int);
    assert(rz =~= seq![90u8]);
    assert(rb =~= o);
    assert(rz.subrange(0, rz.len() as int) =~= rz);
    assert(rb.subrange(0, rb.len() as int) =~= rb);
    assert(rb.subrange(1, 3) =~= seq![(48 + hh / 10) as u8, (48 + hh % 10) as u8]);
    assert(rb.subrange(4, 6) =~= seq![(48 + mm / 10) as u8, (48 + mm % 10) as u8]);
    lemma_field2(rb.subrange(1, 3), hh, true);
    lemma_field2(rb.subrange(4, 6), mm, true);
    assert(b[4] == z[4] && b[7] == z[7] && b[10] == z[10] && b[13] == z[13] && b[16] == z[16]);
}

#[verifier::external_type_specification]
#[verifier::external_body]
pub struct ExSystemTime(std::time::SystemTime);

/// `SystemTime::now`: the system clock's current time.
#[verifier::external_body]
fn clock_now() -> SystemTime {
    SystemTime::now()
}

/// Whether `t` lies before the Unix epoch, and the whole seconds and the
/// milliseconds (below 1000) of its distance from it.
pub uninterp spec fn epoch_parts(t: SystemTime) -> (bool, u64, u16);

/// `SystemTime::duration_since(UNIX_EPOCH)`: whether `t` lies before the
/// epoch, and the whole seconds (`Duration::as_secs`) and milliseconds
/// (`Duration::subsec_millis`, below 1000) of its distance from it; the
/// result is named `epoch_parts`.
#[verifier::external_body]
fn epoch_distance(t: &SystemTime) -> (r: (bool, u64, u16))
    ensures
        r == epoch_parts(*t),
        r.2 < 1000,
{
    match t.duration_since(std::time::UNIX_EPOCH) {
        Ok(d) => (false, d.as_secs(), d.subsec_millis() as u16),
        Err(e) => (true, e.duration().as_secs(), e.duration().subsec_millis() as u16),
    }
}

/// The time `secs` seconds after the Unix epoch, or nothing where the
/// platform cannot represent it.
pub uninterp spec fn epoch_after_secs(secs: u64) -> Option<SystemTime>;

/// The time `secs` seconds before the Unix epoch, or nothing where the
/// platform cannot represent it.
pub uninterp spec fn epoch_before_secs(secs: u64) -> Option<SystemTime>;

/// The time `millis` milliseconds after `t`, or nothing where the platform
/// cannot represent it.
pub uninterp spec fn time_after_millis(t: SystemTime, millis: u64) -> Option<SystemTime>;

/// The time `millis` milliseconds before `t`, or nothing where the platform
/// cannot represent it.
pub uninterp spec fn time_before_millis(t: SystemTime, millis: u64) -> Option<SystemTime>;

/// `UNIX_EPOCH.checked_add(Duration::from_secs(secs))`, named
/// `epoch_after_secs`; such a time lies `secs` whole seconds after the epoch
/// (`duration_since(UNIX_EPOCH)` gives that duration back).
#[verifier::external_body]
fn checked_epoch_add_secs(secs: u64) -> (r: Option<SystemTime>)
    ensures
        r == epoch_after_secs(secs),
        r matches Some(t) ==> epoch_parts(t) == (false, secs, 0u16),
{
    std::time::UNIX_EPOCH.checked_add(std::time::Duration::from_secs(secs))
}

/// `UNIX_EPOCH.checked_sub(Duration::from_secs(secs))`, named `epoch_before_secs`.
#[verifier::external_body]
fn checked_epoch_sub_secs(secs: u64) -> (r: Option<SystemTime>)
    ensures
        r == epoch_before_secs(secs),
{
    std::time::UNIX_EPOCH.checked_sub(std::time::Duration::from_secs(secs))
}

/// `t.checked_add(Duration::from_millis(millis))`, named `time_after_millis`.
#[verifier::external_body]
fn checked_add_millis(t: SystemTime, millis: u64) -> (r: Option<SystemTime>)
    ensures
        r == time_after_millis(t, millis),
{
    t.checked_add(std::time::Duration::from_millis(millis))
}

/// `t.checked_sub(Duration::from_millis(millis))`, named `time_before_millis`.
#[verifier::external_body]
fn checked_sub_millis(t: SystemTime, millis: u64) -> (r: Option<SystemTime>)
    ensures
        r == time_before_millis(t, millis),
{
    t.checked_sub(std::time::Duration::from_millis(millis))
}

/// Unix seconds and milliseconds of a distance from the epoch: after it,
/// as they are; before it, rounded down to whole seconds with the
/// milliseconds counted forward. Seconds are taken as `i64` the way `as`
/// casts them, with wrapping negation.
pub open spec fn epoch_secs_millis(before: bool, secs: u64, millis: u16) -> (i64, u16) {
    let s = secs as i64;
    if !before {
        (s, millis)
    } else if millis == 0 {
        ((-(s as int)) as i64, 0)
    } else {
        ((-(s as int) - 1) as i64, (1000 - millis) as u16)
    }
}

/// Unix seconds and milliseconds of a distance from the epoch (see
/// `epoch_secs_millis`).
pub fn unix_secs_and_millis(before: bool, secs: u64, millis: u16) -> (r: (i64, u16))
    requires
        millis < 1000,
    ensures
        r == epoch_secs_millis(before, secs, millis),
{
    let s = #[verifier::truncate] (secs as i64);
    if !before {
        (s, millis)
    } else if millis == 0 {
        (#[verifier::truncate] ((-(s as i128)) as i64), 0)
    } else {
        (#[verifier::truncate] ((-(s as i128) - 1) as i64), 1000 - millis)
    }
}

/// The current Unix seconds and milliseconds of the system clock.
pub fn unix_now() -> (r: (i64, u16))
    ensures
        r.1 < 1000,
        exists|b: bool, s: u64, m: u16| m < 1000 && r == epoch_secs_millis(b, s, m),
{
    let (b, s, m) = epoch_distance(&clock_now());
    unix_secs_and_millis(b, s, m)
}

impl DateTimeUtc {
    /// The current date and time of the system clock.
    pub fn now() -> (r: DateTimeUtc)
        ensures
            exists|s: i64, m: u16| m < 1000 && r == datetime_of_unix(s as int, m),
    {
        let (s, m) = unix_now();
        DateTimeUtc::from_unix_secs_and_millis(s, m)
    }

    /// The date and time of a `SystemTime`: that of its distance from the
    /// epoch (see `system_datetime`).
    pub fn from_system_time(time: SystemTime) -> (r: DateTimeUtc)
        ensures
            r == system_datetime(time),
    {
        let (b, s, m) = epoch_distance(&time);
        let (secs, millis) = unix_secs_and_millis(b, s, m);
        DateTimeUtc::from_unix_secs_and_millis(secs, millis)
    }

    /// The `SystemTime` of this date and time, or nothing where it has no
    /// representation: where the platform cannot represent it, or where it
    /// lies before the epoch by fewer whole seconds than its milliseconds
    /// reach (see `system_time_at`).
    pub fn try_to_system_time(&self) -> (t: Option<SystemTime>)
        ensures
            t == (if time_reachable(unix_of_datetime(*self), self.millisecond) {
                system_time_at(unix_of_datetime(*self), self.millisecond)
            } else {
                None
            }),
    {
        let (secs, millis) = self.to_unix_secs_and_millis();
        if secs >= 0 || (millis as i128) <= -(secs as i128) * 1000 {
            system_time_of(secs, millis)
        } else {
            None
        }
    }

    /// The `SystemTime` of this date and time.
    pub fn to_system_time(&self) -> (t: SystemTime)
        requires
            time_reachable(unix_of_datetime(*self), self.millisecond),
            system_time_at(unix_of_datetime(*self), self.millisecond) is Some,
        ensures
            Some(t) == system_time_at(unix_of_datetime(*self), self.millisecond),
    {
        let (secs, millis) = self.to_unix_secs_and_millis();
        system_time_of(secs, millis).unwrap()
    }
}

/// The date and time of a `SystemTime`'s distance from the epoch.
pub open spec fn system_datetime(t: SystemTime) -> DateTimeUtc {
    let e = epoch_parts(t);
    datetime_of_unix(epoch_secs_millis(e.0, e.1, e.2).0 as int, epoch_secs_millis(e.0, e.1, e.2).1)
}

/// A time `secs` seconds and `millis` milliseconds after the epoch can be
/// reached: the seconds are not negative, or they lie before the epoch by at
/// least as much as the milliseconds lead after it.
pub open spec fn time_reachable(secs: int, millis: u16) -> bool {
    secs >= 0 || millis <= -secs * 1000
}

/// The time `secs` seconds and `millis` milliseconds after the epoch: the
/// seconds after it, then the milliseconds (if any); for negative seconds, the
/// distance `-secs` seconds less `millis` milliseconds before it, taken as
/// whole seconds and then the remaining milliseconds. Nothing where the
/// platform cannot represent a step.
pub open spec fn system_time_at(secs: int, millis: u16) -> Option<SystemTime> {
    if secs >= 0 {
        match epoch_after_secs(secs as u64) {
            Some(t) => if millis == 0 { Some(t) } else { time_after_millis(t, millis as u64) },
            None => None,
        }
    } else {
        let q = millis / 1000;
        let r = millis % 1000;
        if r == 0 {
            epoch_before_secs((-secs - q) as u64)
        } else {
            match epoch_before_secs((-secs - q - 1) as u64) {
                Some(t) => time_before_millis(t, (1000 - r) as u64),
                None => None,
            }
        }
    }
}

/// Formatting a time a whole number of seconds after the epoch, in a year
/// from 0 to 9999, as RFC 3339 text and reading the text back gives the
/// same time.
pub proof fn lemma_system_time_text_round_trip(secs: u64, t: SystemTime)
    requires
        epoch_after_secs(secs) == Some(t),
        epoch_parts(t) == (false, secs, 0u16),
        secs <= i64::MAX,
        0 <= civil_of_days(secs as int / 86400).0 <= 9999,
    ensures
        match rfc3339_parts(encode_utf8(trim_ws(stamp_text(system_datetime(t)) + "Z"@))) {
            Some((s, m)) => time_reachable(s, m as u16) && system_time_at(s, m as u16) == Some(t),
            None => false,
        },
{
    let d = system_datetime(t);
    assert(epoch_secs_millis(false, secs, 0u16) == (secs as i64, 0u16));
    assert(secs as i64 as int == secs as int);
    assert(d == datetime_of_unix(secs as int, 0u16));
    lemma_datetime_round_trip(secs as int, 0u16);
    lemma_rfc3339_round_trip(d);
}

/// The `SystemTime` `secs` seconds and `millis` milliseconds after the epoch
/// (see `system_time_at`).
fn system_time_of(secs: i64, millis: u16) -> (t: Option<SystemTime>)
    requires
        time_reachable(secs as int, millis),
    ensures
        t == system_time_at(secs as int, millis),
{
    if secs >= 0 {
        match checked_epoch_add_secs(secs as u64) {
            Some(t) => if millis == 0 { Some(t) } else { checked_add_millis(t, millis as u64) },
            None => None,
        }
    } else {
        let n: u64 = (-(secs as i128)) as u64;
        let q: u64 = (millis / 1000) as u64;
        let r: u16 = millis % 1000;
        if r == 0 {
            checked_epoch_sub_secs(n - q)
        } else {
            match checked_epoch_sub_secs(n - q - 1) {
                Some(t) => checked_sub_millis(t, (1000 - r) as u64),
                None => None,
            }
        }
    }
}

/// The current time as RFC 3339 text in UTC.
pub fn now_utc_rfc3339() -> (s: String)
    ensures
        exists|t: DateTimeUtc| s@ == stamp_text(t) + "Z"@,
{
    DateTimeUtc::now().to_rfc3339()
}

/// The current time as RFC 3339 text in UTC with milliseconds.
pub fn now_utc_rfc3339_millis() -> (s: String)
    ensures
        exists|t: DateTimeUtc| s@ == stamp_text(t) + "."@ + dec_padded(t.millisecond as nat, 3) + "Z"@,
{
    DateTimeUtc::now().to_rfc3339_millis()
}

/// RFC 3339 text in UTC of a `SystemTime`.
pub fn format_system_time_rfc3339(time: SystemTime) -> (s: String)
    ensures
        s@ == stamp_text(system_datetime(time)) + "Z"@,
{
    DateTimeUtc::from_system_time(time).to_rfc3339()
}

/// Milliseconds since the epoch of a distance from it: none before it,
/// else the seconds and milliseconds in milliseconds, as `u64`.
pub open spec fn epoch_millis(before: bool, secs: u64, millis: u16) -> u64 {
    if before { 0 } else { (secs * 1000 + millis) as u64 }
}

/// The current time in milliseconds since the epoch (see `epoch_millis`).
pub fn now_timestamp_millis() -> (r: u64)
    ensures
        exists|b: bool, s: u64, m: u16| m < 1000 && r == epoch_millis(b, s, m),
{
    let (b, s, m) = epoch_distance(&clock_now());
    let r: u64 = if b {
        0
    } else {
        let total: u128 = (s as u128) * 1000 + m as u128;
        assert(total == s * 1000 + m);
        #[verifier::truncate] (total as u64)
    };
    assert(r == epoch_millis(b, s, m));
    r
}

/// The `SystemTime` of RFC 3339 text, when it reads (see `rfc3339_parts`)
/// and the time has a representation (see `system_time_at`).
pub fn parse_rfc3339_to_system_time(s: &str) -> (r: Option<SystemTime>)
    ensures
        r == match rfc3339_parts(encode_utf8(trim_ws(s@))) {
            Some((secs, millis)) => if time_reachable(secs, millis as u16) {
                system_time_at(secs, millis as u16)
            } else {
                None
            },
            None => None,
        },
{
    match parse_rfc3339(s) {
        Some((secs, millis)) => {
            if secs >= 0 || (millis as i128) <= -(secs as i128) * 1000 {
                system_time_of(secs, millis)
            } else {
                None
            }
        },
        None => None,
    }
}

/// Local time with its offset: `YYYY-MM-DDTHH:MM:SS±HH:MM`.
pub open spec fn local_text(secs: int, millis: u16, offset: int) -> Seq<char> {
    let a = if offset >= 0 { offset } else { -offset };
    stamp_text(datetime_of_unix(secs + offset, millis)) + (if offset >= 0 { "+"@ } else { "-"@ })
        + dec_padded(((a / 3600) as u8) as nat, 2) + ":"@ + dec_padded((((a % 3600) / 60) as u8) as nat, 2)
}

/// Local time with its offset for the instant `secs`, `millis` and an offset
/// from UTC in seconds (see `local_text`).
pub fn local_rfc3339(secs: i64, millis: u16, offset_secs: i64) -> (s: String)
    requires
        i64::MIN < offset_secs,
        i64::MIN <= secs + offset_secs <= i64::MAX,
    ensures
        s@ == local_text(secs as int, millis, offset_secs as int),
{
    let dt = DateTimeUtc::from_unix_secs_and_millis(secs + offset_secs, millis);
    let a: u64 = if offset_secs >= 0 { offset_secs as u64 } else { (-offset_secs) as u64 };
    let mut s = String::new();
    push_stamp(&mut s, &dt);
    if offset_secs >= 0 {
        push_str(&mut s, "+");
    } else {
        push_str(&mut s, "-");
    }
    push_decimal_padded(&mut s, (#[verifier::truncate] ((a / 3600) as u8)) as u64, 2);
    push_str(&mut s, ":");
    push_decimal_padded(&mut s, (#[verifier::truncate] (((a % 3600) / 60) as u8)) as u64, 2);
    s
}

/// Local time with milliseconds and no offset: `YYYY-MM-DDTHH:MM:SS.mmm`.
pub open spec fn local_iso_text(secs: int, millis: u16, offset: int) -> Seq<char> {
    let t = datetime_of_unix(secs + offset, millis);
    stamp_text(t) + "."@ + dec_padded(t.millisecond as nat, 3)
}

/// Local time with milliseconds for the instant `secs`, `millis` and an
/// offset from UTC in seconds (see `local_iso_text`).
pub fn local_iso_millis(secs: i64, millis: u16, offset_secs: i64) -> (s: String)
    requires
        i64::MIN <= secs + offset_secs <= i64::MAX,
    ensures
        s@ == local_iso_text(secs as int, millis, offset_secs as int),
{
    let dt = DateTimeUtc::from_unix_secs_and_millis(secs + offset_secs, millis);
    let mut s = String::new();
    push_stamp(&mut s, &dt);
    push_str(&mut s, ".");
    push_decimal_padded(&mut s, dt.millisecond as u64, 3);
    s
}

} // verus!
