//! The `eta` wire format: RFC-3339 UTC timestamps, read and written
//! against a model of instants as milliseconds since the Unix epoch.
//!
//! The representable range is 1970-01-01T00:00:00.000Z up to
//! 9999-12-31T23:59:59.999Z: a four-digit year, at millisecond
//! resolution. Reading accepts an optional fractional second (extra
//! digits beyond milliseconds are ignored) and a `Z` or `+hh:mm` /
//! `-hh:mm` offset; writing always emits three fractional digits
//! and `Z`.

use vstd::prelude::*;

use crate::task::MAX_ETA_MS;
use crate::text::digit_char;
use crate::text::digit_of;
use crate::text::digit_val;
use crate::text::is_digit;

verus! {

pub const MS_PER_DAY: i64 = 86400000;

pub const MS_PER_HOUR: i64 = 3600000;

pub const MS_PER_MIN: i64 = 60000;

/// The day number (from 1970-01-01) of the last representable day,
/// 9999-12-31.
pub const LAST_EPOCH_DAY: i64 = 2932896;

/// A leap year of the proleptic Gregorian calendar.
pub open spec fn is_leap(y: int) -> bool {
    y % 4 == 0 && (y % 100 != 0 || y % 400 == 0)
}

pub open spec fn days_in_year(y: int) -> int {
    if is_leap(y) {
        366
    } else {
        365
    }
}

pub open spec fn month_len(y: int, m: int) -> int {
    if m == 1 {
        31
    } else if m == 2 {
        if is_leap(y) {
            29
        } else {
            28
        }
    } else if m == 3 {
        31
    } else if m == 4 {
        30
    } else if m == 5 {
        31
    } else if m == 6 {
        30
    } else if m == 7 {
        31
    } else if m == 8 {
        31
    } else if m == 9 {
        30
    } else if m == 10 {
        31
    } else if m == 11 {
        30
    } else {
        31
    }
}

/// Days from 1970-01-01 to the first day of year `y`.
pub open spec fn days_before_year(y: int) -> int
    decreases y - 1970,
{
    if y <= 1970 {
        0
    } else {
        days_before_year(y - 1) + days_in_year(y - 1)
    }
}

/// Days from the first day of year `y` to the first day of month `m`.
pub open spec fn days_before_month(y: int, m: int) -> int
    decreases m,
{
    if m <= 1 {
        0
    } else {
        days_before_month(y, m - 1) + month_len(y, m - 1)
    }
}

/// A valid calendar date in the representable range.
pub open spec fn valid_date(y: int, m: int, d: int) -> bool {
    1970 <= y <= 9999 && 1 <= m <= 12 && 1 <= d <= month_len(y, m)
}

/// A valid time of day at millisecond resolution.
pub open spec fn valid_time(h: int, mi: int, s: int, ms: int) -> bool {
    0 <= h < 24 && 0 <= mi < 60 && 0 <= s < 60 && 0 <= ms < 1000
}

/// The instant of a date and time of day, in milliseconds since the
/// epoch.
pub open spec fn civil_ms(y: int, m: int, d: int, h: int, mi: int, s: int, ms: int) -> int {
    (days_before_year(y) + days_before_month(y, m) + (d - 1)) * (MS_PER_DAY as int) + h * (
    MS_PER_HOUR as int) + mi * (MS_PER_MIN as int) + s * 1000 + ms
}

/// The closed form of `days_before_year`: 365 days a year plus one for
/// every leap year passed.
pub proof fn lemma_days_before_year_closed(y: int)
    requires
        1970 <= y,
    ensures
        days_before_year(y) == 365 * (y - 1970) + (y - 1) / 4 - (y - 1) / 100 + (y - 1) / 400
            - 477,
    decreases y - 1970,
{
    if y == 1970 {
    } else {
        lemma_days_before_year_closed(y - 1);
        let p = y - 1;
        assert((p / 4 - (p - 1) / 4 == if p % 4 == 0 {
            1int
        } else {
            0int
        }) && (p / 100 - (p - 1) / 100 == if p % 100 == 0 {
            1int
        } else {
            0int
        }) && (p / 400 - (p - 1) / 400 == if p % 400 == 0 {
            1int
        } else {
            0int
        })) by (nonlinear_arith)
            requires
                p >= 1970,
        ;
        assert(days_in_year(p) == 365 + (if p % 4 == 0 {
            1int
        } else {
            0int
        }) - (if p % 100 == 0 {
            1int
        } else {
            0int
        }) + (if p % 400 == 0 {
            1int
        } else {
            0int
        })) by {
            if p % 100 == 0 {
                assert(p % 4 == 0) by (nonlinear_arith)
                    requires
                        p % 100 == 0,
                ;
            }
            if p % 400 == 0 {
                assert(p % 100 == 0) by (nonlinear_arith)
                    requires
                        p % 400 == 0,
                ;
            }
        }
    }
}

/// The number of days before the year 10000: one past the last
/// representable day.
pub proof fn lemma_last_day()
    ensures
        days_before_year(9999) == 2932532,
        days_before_year(9999) + days_in_year(9999) - 1 == LAST_EPOCH_DAY as int,
        (LAST_EPOCH_DAY as int) * (MS_PER_DAY as int) + MS_PER_DAY as int - 1 == MAX_ETA_MS as int,
{
    lemma_days_before_year_closed(9999);
    assert(9998int / 4 == 2499 && 9998int / 100 == 99 && 9998int / 400 == 24);
    assert(!is_leap(9999)) by {
        assert(9999int % 4 == 3);
    }
}

/// The days of a year are exactly its twelve months end to end.
pub proof fn lemma_months_cover_year(y: int)
    ensures
        days_before_month(y, 13) == days_in_year(y),
{
    reveal_with_fuel(days_before_month, 14);
}

/// The year holding a day count: starting from year `b` with `rem` days
/// left, walks years until the remainder falls inside one (capped at
/// year 9999). Returns the year and the day of that year.
pub open spec fn year_rem(b: int, rem: int) -> (int, int)
    decreases 9999 - b,
{
    if b >= 9999 || rem < days_in_year(b) {
        (b, rem)
    } else {
        year_rem(b + 1, rem - days_in_year(b))
    }
}

/// The month holding a day-of-year: starting from month `m` with `rem`
/// days left, walks months until the remainder falls inside one
/// (capped at December). Returns the month and the day of month,
/// counted from zero.
pub open spec fn month_rem(y: int, m: int, rem: int) -> (int, int)
    decreases 12 - m,
{
    if m >= 12 || rem < month_len(y, m) {
        (m, rem)
    } else {
        month_rem(y, m + 1, rem - month_len(y, m))
    }
}

/// Correctness of the year walk: within the representable range it
/// lands on the year whose days contain the given day count.
pub proof fn lemma_year_rem(b: int, rem: int)
    requires
        1970 <= b <= 9999,
        0 <= rem,
        days_before_year(b) + rem <= LAST_EPOCH_DAY as int,
    ensures
        ({
            let (y, doy) = year_rem(b, rem);
            &&& 1970 <= y <= 9999
            &&& 0 <= doy < days_in_year(y)
            &&& days_before_year(y) + doy == days_before_year(b) + rem
        }),
    decreases 9999 - b,
{
    lemma_last_day();
    if b >= 9999 || rem < days_in_year(b) {
        if b >= 9999 {
            assert(b == 9999);
            assert(rem < days_in_year(9999));
        }
    } else {
        lemma_year_rem(b + 1, rem - days_in_year(b));
    }
}

/// Correctness of the month walk: within one year it lands on the month
/// whose days contain the given day of the year.
pub proof fn lemma_month_rem(y: int, m: int, rem: int)
    requires
        1 <= m <= 12,
        0 <= rem,
        days_before_month(y, m) + rem <= days_in_year(y) - 1,
    ensures
        ({
            let (mm, dom) = month_rem(y, m, rem);
            &&& 1 <= mm <= 12
            &&& 0 <= dom < month_len(y, mm)
            &&& days_before_month(y, mm) + dom == days_before_month(y, m) + rem
        }),
    decreases 12 - m,
{
    lemma_months_cover_year(y);
    if m >= 12 || rem < month_len(y, m) {
        if m >= 12 {
            assert(m == 12);
            assert(days_before_month(y, 13) == days_before_month(y, 12) + month_len(y, 12));
        }
    } else {
        lemma_month_rem(y, m + 1, rem - month_len(y, m));
    }
}

/// A two-digit zero-padded numeral.
pub open spec fn pad2(n: int) -> Seq<char> {
    seq![digit_char(n / 10 % 10), digit_char(n % 10)]
}

/// A three-digit zero-padded numeral.
pub open spec fn pad3(n: int) -> Seq<char> {
    seq![digit_char(n / 100 % 10), digit_char(n / 10 % 10), digit_char(n % 10)]
}

/// A four-digit zero-padded numeral.
pub open spec fn pad4(n: int) -> Seq<char> {
    seq![digit_char(n / 1000 % 10), digit_char(n / 100 % 10), digit_char(n / 10 % 10), digit_char(n % 10)]
}

/// The calendar date of a day count from the epoch.
pub open spec fn spec_date_of_days(days: int) -> (int, int, int) {
    let (y, doy) = year_rem(1970, days);
    let (m, dom) = month_rem(y, 1, doy);
    (y, m, dom + 1)
}

/// The canonical text of the instant `t`:
/// `yyyy-mm-ddThh:mm:ss.mmmZ`.
pub open spec fn spec_format_ms(t: int) -> Seq<char> {
    let days = t / (MS_PER_DAY as int);
    let tod = t % (MS_PER_DAY as int);
    let (y, m, d) = spec_date_of_days(days);
    let h = tod / (MS_PER_HOUR as int);
    let mi = tod / (MS_PER_MIN as int) % 60;
    let s = tod / 1000 % 60;
    let ms = tod % 1000;
    pad4(y) + seq!['-'] + pad2(m) + seq!['-'] + pad2(d) + seq!['T'] + pad2(h) + seq![':'] + pad2(
        mi,
    ) + seq![':'] + pad2(s) + seq!['.'] + pad3(ms) + seq!['Z']
}

/// The characters at `i`, `i + 1` are digits.
pub open spec fn digits2_at(s: Seq<char>, i: int) -> bool {
    is_digit(s[i]) && is_digit(s[i + 1])
}

/// The value of the two digits at `i`.
pub open spec fn d2(s: Seq<char>, i: int) -> int {
    digit_val(s[i]) * 10 + digit_val(s[i + 1])
}

/// The characters at `i` .. `i + 4` are digits.
pub open spec fn digits4_at(s: Seq<char>, i: int) -> bool {
    is_digit(s[i]) && is_digit(s[i + 1]) && is_digit(s[i + 2]) && is_digit(s[i + 3])
}

/// The value of the four digits at `i`.
pub open spec fn d4(s: Seq<char>, i: int) -> int {
    digit_val(s[i]) * 1000 + digit_val(s[i + 1]) * 100 + digit_val(s[i + 2]) * 10 + digit_val(
        s[i + 3],
    )
}

/// The first index at or after `i` that does not hold a digit.
pub open spec fn frac_end(s: Seq<char>, i: int) -> int
    decreases s.len() - i,
{
    if i >= s.len() || !is_digit(s[i]) {
        i
    } else {
        frac_end(s, i + 1)
    }
}

/// The milliseconds denoted by the fractional-second digits at
/// `i .. end`: the first three digits, missing places reading zero;
/// digits beyond the third are ignored.
pub open spec fn frac_ms(s: Seq<char>, i: int, end: int) -> int {
    (if i < end {
        digit_val(s[i]) * 100
    } else {
        0
    }) + (if i + 1 < end {
        digit_val(s[i + 1]) * 10
    } else {
        0
    }) + (if i + 2 < end {
        digit_val(s[i + 2])
    } else {
        0
    })
}

/// The offset denoted at `i`, which must end the text: `Z` (or `z`)
/// for zero, or a signed `hh:mm` pair, in milliseconds.
pub open spec fn spec_offset(s: Seq<char>, i: int) -> Option<int> {
    if i >= s.len() {
        None
    } else if (s[i] == 'Z' || s[i] == 'z') && i + 1 == s.len() {
        Some(0)
    } else if (s[i] == '+' || s[i] == '-') && i + 6 == s.len() && digits2_at(s, i + 1) && s[i + 3]
        == ':' && digits2_at(s, i + 4) && d2(s, i + 1) < 24 && d2(s, i + 4) < 60 {
        Some(
            (if s[i] == '+' {
                1int
            } else {
                -1int
            }) * (d2(s, i + 1) * (MS_PER_HOUR as int) + d2(s, i + 4) * (MS_PER_MIN as int)),
        )
    } else {
        None
    }
}

/// The shape of the date and time part: `yyyy-mm-dd` then a `T`, `t`
/// or space, then `hh:mm:ss`.
pub open spec fn datetime_shape(s: Seq<char>) -> bool {
    &&& s.len() >= 20
    &&& digits4_at(s, 0)
    &&& s[4] == '-'
    &&& digits2_at(s, 5)
    &&& s[7] == '-'
    &&& digits2_at(s, 8)
    &&& (s[10] == 'T' || s[10] == 't' || s[10] == ' ')
    &&& digits2_at(s, 11)
    &&& s[13] == ':'
    &&& digits2_at(s, 14)
    &&& s[16] == ':'
    &&& digits2_at(s, 17)
}

/// The instant denoted by an RFC-3339 timestamp, or `None` when the
/// text is not one, denotes an invalid date or time, or falls outside
/// the representable range.
pub open spec fn spec_parse_rfc3339(s: Seq<char>) -> Option<int> {
    if !datetime_shape(s) {
        None
    } else {
        let y = d4(s, 0);
        let m = d2(s, 5);
        let d = d2(s, 8);
        let h = d2(s, 11);
        let mi = d2(s, 14);
        let sec = d2(s, 17);
        let has_frac = s[19] == '.';
        let fend = frac_end(s, 20);
        let ms = if has_frac {
            frac_ms(s, 20, fend)
        } else {
            0
        };
        let off_at = if has_frac {
            fend
        } else {
            19int
        };
        if has_frac && fend == 20 {
            None
        } else if !valid_date(y, m, d) || !valid_time(h, mi, sec, ms) {
            None
        } else {
            match spec_offset(s, off_at) {
                None => None,
                Some(off) => {
                    let t = civil_ms(y, m, d, h, mi, sec, ms) - off;
                    if 0 <= t <= MAX_ETA_MS as int {
                        Some(t)
                    } else {
                        None
                    }
                },
            }
        }
    }
}

/// Reads the two-digit number at `i`.
fn read2(s: &Vec<char>, i: usize) -> (r: Option<u32>)
    requires
        i + 2 <= s@.len(),
    ensures
        (match r {
            Some(v) => digits2_at(s@, i as int) && v == d2(s@, i as int) && v < 100,
            None => !digits2_at(s@, i as int),
        }),
{
    let n = s.len();
    let a = match digit_of(s[i]) {
        Some(a) => a,
        None => {
            return None;
        },
    };
    let b = match digit_of(s[i + 1]) {
        Some(b) => b,
        None => {
            return None;
        },
    };
    Some((a * 10 + b) as u32)
}

/// Reads the four-digit number at `i`.
fn read4(s: &Vec<char>, i: usize) -> (r: Option<u32>)
    requires
        i + 4 <= s@.len(),
    ensures
        (match r {
            Some(v) => digits4_at(s@, i as int) && v == d4(s@, i as int) && v < 10000,
            None => !digits4_at(s@, i as int),
        }),
{
    let n = s.len();
    let a = match read2(s, i) {
        Some(a) => a,
        None => {
            return None;
        },
    };
    let b = match read2(s, i + 2) {
        Some(b) => b,
        None => {
            return None;
        },
    };
    Some(a * 100 + b)
}

/// Days from the epoch to the first day of year `y`.
fn days_before_year_exec(y: u32) -> (r: i64)
    requires
        1970 <= y <= 9999,
    ensures
        r == days_before_year(y as int),
        0 <= r <= 2932532,
{
    proof {
        lemma_last_day();
    }
    let mut acc: i64 = 0;
    let mut k: u32 = 1970;
    while k < y
        invariant
            1970 <= k <= y <= 9999,
            acc == days_before_year(k as int),
            0 <= acc <= 2932532,
        decreases y - k,
    {
        proof {
            lemma_last_day();
            lemma_days_before_year_monotonic(k as int + 1, 9999);
        }
        let leap = (k % 4 == 0 && (k % 100 != 0 || k % 400 == 0));
        acc = acc + if leap {
            366
        } else {
            365
        };
        k = k + 1;
    }
    acc
}

/// `days_before_year` never decreases as the year grows.
proof fn lemma_days_before_year_monotonic(a: int, b: int)
    requires
        a <= b,
    ensures
        days_before_year(a) <= days_before_year(b),
    decreases b - a,
{
    if a < b {
        lemma_days_before_year_monotonic(a, b - 1);
    }
}

/// The length of month `m` of year `y`.
fn month_len_exec(y: u32, m: u32) -> (r: i64)
    requires
        1 <= m <= 12,
    ensures
        r == month_len(y as int, m as int),
        28 <= r <= 31,
{
    if m == 2 {
        if y % 4 == 0 && (y % 100 != 0 || y % 400 == 0) {
            29
        } else {
            28
        }
    } else if m == 4 || m == 6 || m == 9 || m == 11 {
        30
    } else {
        31
    }
}

/// Days from the first day of year `y` to the first day of month `m`.
fn days_before_month_exec(y: u32, m: u32) -> (r: i64)
    requires
        1 <= m <= 12,
    ensures
        r == days_before_month(y as int, m as int),
        0 <= r <= 366,
{
    let mut acc: i64 = 0;
    let mut k: u32 = 1;
    while k < m
        invariant
            1 <= k <= m <= 12,
            acc == days_before_month(y as int, k as int),
            0 <= acc <= 366,
        decreases m - k,
    {
        acc = acc + month_len_exec(y, k);
        k = k + 1;
        proof {
            assert(days_before_month(y as int, k as int) <= 366) by {
                lemma_months_cover_year(y as int);
                lemma_days_before_month_bound(y as int, k as int);
            }
        }
    }
    acc
}

/// Within a year, no month starts more than the year's days in.
proof fn lemma_days_before_month_bound(y: int, m: int)
    requires
        1 <= m <= 13,
    ensures
        days_before_month(y, m) <= days_before_month(y, 13),
    decreases 13 - m,
{
    if m < 13 {
        lemma_days_before_month_bound(y, m + 1);
    }
}

/// Parses an RFC-3339 timestamp into milliseconds since the epoch.
#[verifier::rlimit(60)]
pub fn parse_rfc3339(s: &Vec<char>) -> (r: Option<i64>)
    ensures
        (match r {
            Some(t) => spec_parse_rfc3339(s@) == Some(t as int) && 0 <= t <= MAX_ETA_MS,
            None => spec_parse_rfc3339(s@) is None,
        }),
{
    if s.len() < 20 {
        return None;
    }
    let y = match read4(s, 0) {
        Some(v) => v,
        None => {
            return None;
        },
    };
    if !(s[4] == '-') {
        return None;
    }
    let m = match read2(s, 5) {
        Some(v) => v,
        None => {
            return None;
        },
    };
    if !(s[7] == '-') {
        return None;
    }
    let d = match read2(s, 8) {
        Some(v) => v,
        None => {
            return None;
        },
    };
    if !(s[10] == 'T' || s[10] == 't' || s[10] == ' ') {
        return None;
    }
    let h = match read2(s, 11) {
        Some(v) => v,
        None => {
            return None;
        },
    };
    if !(s[13] == ':') {
        return None;
    }
    let mi = match read2(s, 14) {
        Some(v) => v,
        None => {
            return None;
        },
    };
    if !(s[16] == ':') {
        return None;
    }
    let sec = match read2(s, 17) {
        Some(v) => v,
        None => {
            return None;
        },
    };
    let has_frac = s[19] == '.';
    let mut ms: i64 = 0;
    let mut off_at: usize = 19;
    if has_frac {
        let mut fend: usize = 20;
        while fend < s.len() && digit_of(s[fend]).is_some()
            invariant
                20 <= fend <= s@.len(),
                s@.len() >= 20,
                forall|k: int| 20 <= k < fend ==> is_digit(#[trigger] s@[k]),
                frac_end(s@, 20) == frac_end(s@, fend as int),
            decreases s@.len() - fend,
        {
            fend = fend + 1;
        }
        proof {
            assert(frac_end(s@, fend as int) == fend as int);
        }
        if fend == 20 {
            return None;
        }
        let m1 = match digit_of(s[20]) {
            Some(v) => v as i64,
            None => unreached(),
        };
        let m2: i64 = if fend > 21 {
            match digit_of(s[21]) {
                Some(v) => v as i64,
                None => unreached(),
            }
        } else {
            0
        };
        let m3: i64 = if fend > 22 {
            match digit_of(s[22]) {
                Some(v) => v as i64,
                None => unreached(),
            }
        } else {
            0
        };
        ms = m1 * 100 + m2 * 10 + m3;
        off_at = fend;
        proof {
            assert(ms == frac_ms(s@, 20, fend as int));
        }
    }
    // offset
    if off_at >= s.len() {
        return None;
    }
    let c = s[off_at];
    let off: i64;
    if (c == 'Z' || c == 'z') && s.len() - off_at == 1 {
        off = 0;
        proof {
            assert(spec_offset(s@, off_at as int) == Some(0int));
        }
    } else if (c == '+' || c == '-') && s.len() - off_at == 6 {
        let hh = match read2(s, off_at + 1) {
            Some(v) => v,
            None => {
                return None;
            },
        };
        if !(s[off_at + 3] == ':') {
            return None;
        }
        let mm = match read2(s, off_at + 4) {
            Some(v) => v,
            None => {
                return None;
            },
        };
        if !(hh < 24 && mm < 60) {
            return None;
        }
        let magnitude = (hh as i64) * MS_PER_HOUR + (mm as i64) * MS_PER_MIN;
        off = if c == '+' {
            magnitude
        } else {
            -magnitude
        };
        proof {
            assert(off_at as int + 6 == s@.len());
            assert(s@[off_at as int] == c);
            assert(digits2_at(s@, off_at as int + 1));
            assert(s@[off_at as int + 3] == ':');
            assert(digits2_at(s@, off_at as int + 4));
            assert(d2(s@, off_at as int + 1) == hh as int);
            assert(d2(s@, off_at as int + 4) == mm as int);
            let x = (hh as int) * (MS_PER_HOUR as int) + (mm as int) * (MS_PER_MIN as int);
            assert(1int * x == x) by (nonlinear_arith);
            assert((-1int) * x == -x) by (nonlinear_arith);
            if c == '+' {
                assert(off as int == x);
            } else {
                assert(off as int == -x);
            }
            assert(spec_offset(s@, off_at as int) == Some(off as int));
        }
    } else {
        return None;
    }
    proof {
        assert(spec_offset(s@, off_at as int) == Some(off as int));
    }
    // validity
    if !(1970 <= y && y <= 9999 && 1 <= m && m <= 12) {
        return None;
    }
    let ml = month_len_exec(y, m);
    if !(1 <= d as i64 && d as i64 <= ml) {
        return None;
    }
    if !(h < 24 && mi < 60 && sec < 60) {
        return None;
    }
    let days = days_before_year_exec(y) + days_before_month_exec(y, m) + (d as i64 - 1);
    let t = days * MS_PER_DAY + (h as i64) * MS_PER_HOUR + (mi as i64) * MS_PER_MIN + (sec as i64)
        * 1000 + ms - off;
    proof {
        assert(civil_ms(y as int, m as int, d as int, h as int, mi as int, sec as int, ms as int)
            - spec_offset(s@, off_at as int)->0 == t as int);
    }
    if 0 <= t && t <= MAX_ETA_MS {
        Some(t)
    } else {
        None
    }
}


/// A two-digit number is read back from its zero-padded numeral.
proof fn lemma_split2(n: int)
    requires
        0 <= n < 100,
    ensures
        n / 10 % 10 * 10 + n % 10 == n,
        0 <= n / 10 % 10 <= 9,
        0 <= n % 10 <= 9,
{
    vstd::arithmetic::div_mod::lemma_fundamental_div_mod(n, 10);
    assert(n / 10 < 10) by (nonlinear_arith)
        requires
            0 <= n < 100,
    ;
    vstd::arithmetic::div_mod::lemma_small_mod((n / 10) as nat, 10);
}

/// A four-digit number is read back from its zero-padded numeral.
proof fn lemma_split4(n: int)
    requires
        0 <= n < 10000,
    ensures
        n / 1000 % 10 * 1000 + n / 100 % 10 * 100 + n / 10 % 10 * 10 + n % 10 == n,
        0 <= n / 1000 % 10 <= 9,
        0 <= n / 100 % 10 <= 9,
        0 <= n / 10 % 10 <= 9,
        0 <= n % 10 <= 9,
{
    vstd::arithmetic::div_mod::lemma_fundamental_div_mod(n, 10);
    vstd::arithmetic::div_mod::lemma_fundamental_div_mod(n / 10, 10);
    vstd::arithmetic::div_mod::lemma_fundamental_div_mod(n / 100, 10);
    vstd::arithmetic::div_mod::lemma_div_denominator(n, 10, 10);
    vstd::arithmetic::div_mod::lemma_div_denominator(n, 100, 10);
    assert(n / 10 / 10 == n / 100);
    assert(n / 100 / 10 == n / 1000);
    assert(n / 1000 < 10) by (nonlinear_arith)
        requires
            0 <= n < 10000,
    ;
    vstd::arithmetic::div_mod::lemma_small_mod((n / 1000) as nat, 10);
    assert(0 <= n / 10 && 0 <= n / 100) by (nonlinear_arith)
        requires
            n >= 0,
    ;
}

/// A three-digit number is read back from its zero-padded numeral.
proof fn lemma_split3(n: int)
    requires
        0 <= n < 1000,
    ensures
        n / 100 % 10 * 100 + n / 10 % 10 * 10 + n % 10 == n,
        0 <= n / 100 % 10 <= 9,
        0 <= n / 10 % 10 <= 9,
        0 <= n % 10 <= 9,
{
    vstd::arithmetic::div_mod::lemma_fundamental_div_mod(n, 10);
    vstd::arithmetic::div_mod::lemma_fundamental_div_mod(n / 10, 10);
    vstd::arithmetic::div_mod::lemma_div_denominator(n, 10, 10);
    assert(n / 10 / 10 == n / 100);
    assert(n / 100 < 10) by (nonlinear_arith)
        requires
            0 <= n < 1000,
    ;
    vstd::arithmetic::div_mod::lemma_small_mod((n / 100) as nat, 10);
    assert(0 <= n / 10) by (nonlinear_arith)
        requires
            n >= 0,
    ;
}

/// Appends the two-digit zero-padded numeral of `n`.
fn push_pad2(out: &mut Vec<char>, n: i64)
    requires
        0 <= n < 100,
    ensures
        final(out)@ == old(out)@ + pad2(n as int),
{
    proof {
        lemma_split2(n as int);
    }
    let c1 = (48 + ((n / 10 % 10) as u8)) as char;
    let c2 = (48 + ((n % 10) as u8)) as char;
    proof {
        assert(c1 == digit_char(n as int / 10 % 10) && c2 == digit_char(n as int % 10)) by {
            assert((48 + (n / 10 % 10)) as u8 as char as int == 48 + (n / 10 % 10));
            assert((48 + (n % 10)) as u8 as char as int == 48 + (n % 10));
        }
    }
    out.push(c1);
    out.push(c2);
    proof {
        assert(out@ =~= old(out)@ + pad2(n as int));
    }
}

/// Appends the three-digit zero-padded numeral of `n`.
fn push_pad3(out: &mut Vec<char>, n: i64)
    requires
        0 <= n < 1000,
    ensures
        final(out)@ == old(out)@ + pad3(n as int),
{
    proof {
        lemma_split3(n as int);
    }
    let c1 = (48 + ((n / 100 % 10) as u8)) as char;
    let c2 = (48 + ((n / 10 % 10) as u8)) as char;
    let c3 = (48 + ((n % 10) as u8)) as char;
    proof {
        assert(c1 == digit_char(n as int / 100 % 10) && c2 == digit_char(n as int / 10 % 10) && c3
            == digit_char(n as int % 10)) by {
            assert((48 + (n / 100 % 10)) as u8 as char as int == 48 + (n / 100 % 10));
            assert((48 + (n / 10 % 10)) as u8 as char as int == 48 + (n / 10 % 10));
            assert((48 + (n % 10)) as u8 as char as int == 48 + (n % 10));
        }
    }
    out.push(c1);
    out.push(c2);
    out.push(c3);
    proof {
        assert(out@ =~= old(out)@ + pad3(n as int));
    }
}

/// Appends the four-digit zero-padded numeral of `n`.
fn push_pad4(out: &mut Vec<char>, n: i64)
    requires
        0 <= n < 10000,
    ensures
        final(out)@ == old(out)@ + pad4(n as int),
{
    proof {
        lemma_split4(n as int);
    }
    let c1 = (48 + ((n / 1000 % 10) as u8)) as char;
    let c2 = (48 + ((n / 100 % 10) as u8)) as char;
    let c3 = (48 + ((n / 10 % 10) as u8)) as char;
    let c4 = (48 + ((n % 10) as u8)) as char;
    proof {
        assert(c1 == digit_char(n as int / 1000 % 10) && c2 == digit_char(n as int / 100 % 10)
            && c3 == digit_char(n as int / 10 % 10) && c4 == digit_char(n as int % 10)) by {
            assert((48 + (n / 1000 % 10)) as u8 as char as int == 48 + (n / 1000 % 10));
            assert((48 + (n / 100 % 10)) as u8 as char as int == 48 + (n / 100 % 10));
            assert((48 + (n / 10 % 10)) as u8 as char as int == 48 + (n / 10 % 10));
            assert((48 + (n % 10)) as u8 as char as int == 48 + (n % 10));
        }
    }
    out.push(c1);
    out.push(c2);
    out.push(c3);
    out.push(c4);
    proof {
        assert(out@ =~= old(out)@ + pad4(n as int));
    }
}

/// The number of days in year `y`.
fn days_in_year_exec(y: u32) -> (r: i64)
    ensures
        r == days_in_year(y as int),
{
    if y % 4 == 0 && (y % 100 != 0 || y % 400 == 0) {
        366
    } else {
        365
    }
}

/// Writes the instant `t` as its canonical RFC-3339 text,
/// `yyyy-mm-ddThh:mm:ss.mmmZ`.
#[verifier::rlimit(60)]
pub fn format_rfc3339(t: i64) -> (r: Vec<char>)
    requires
        0 <= t <= MAX_ETA_MS,
    ensures
        r@ == spec_format_ms(t as int),
{
    proof {
        lemma_last_day();
    }
    let days = t / MS_PER_DAY;
    let tod = t % MS_PER_DAY;
    proof {
        assert(days <= LAST_EPOCH_DAY) by (nonlinear_arith)
            requires
                0 <= t,
                t as int <= (LAST_EPOCH_DAY as int) * (MS_PER_DAY as int) + (MS_PER_DAY as int)
                    - 1,
                days == t / MS_PER_DAY,
                MS_PER_DAY == 86400000,
                LAST_EPOCH_DAY == 2932896,
        ;
        lemma_year_rem(1970, days as int);
    }
    let mut yy: u32 = 1970;
    let mut rem: i64 = days;
    while yy < 9999 && rem >= days_in_year_exec(yy)
        invariant
            1970 <= yy <= 9999,
            year_rem(1970, days as int) == year_rem(yy as int, rem as int),
            rem >= 0,
            rem <= days,
            0 <= days <= LAST_EPOCH_DAY,
        decreases 9999 - yy,
    {
        rem = rem - days_in_year_exec(yy);
        yy = yy + 1;
    }
    proof {
        assert(year_rem(yy as int, rem as int) == (yy as int, rem as int));
        assert(spec_date_of_days(days as int).0 == yy as int);
        lemma_year_rem(1970, days as int);
        assert(rem < days_in_year(yy as int));
        lemma_month_rem(yy as int, 1, rem as int);
    }
    let mut mm: u32 = 1;
    let mut mrem: i64 = rem;
    while mm < 12 && mrem >= month_len_exec(yy, mm)
        invariant
            1 <= mm <= 12,
            month_rem(yy as int, 1, rem as int) == month_rem(yy as int, mm as int, mrem as int),
            mrem >= 0,
            mrem <= rem,
            0 <= rem < 366,
        decreases 12 - mm,
    {
        mrem = mrem - month_len_exec(yy, mm);
        mm = mm + 1;
    }
    proof {
        assert(month_rem(yy as int, mm as int, mrem as int) == (mm as int, mrem as int));
        assert(spec_date_of_days(days as int).1 == mm as int);
        assert(spec_date_of_days(days as int).2 == mrem as int + 1);
        lemma_month_rem(yy as int, 1, rem as int);
    }
    let dd = mrem + 1;
    let h = tod / MS_PER_HOUR;
    let mi = tod / MS_PER_MIN % 60;
    let sec = tod / 1000 % 60;
    let ms = tod % 1000;
    proof {
        assert(0 <= tod < 86400000);
        assert(h < 24 && 0 <= h) by (nonlinear_arith)
            requires
                0 <= tod < 86400000,
                h == tod / MS_PER_HOUR,
                MS_PER_HOUR == 3600000,
        ;
        assert(0 <= mi < 60 && 0 <= sec < 60 && 0 <= ms < 1000);
        assert(0 < dd <= 31);
    }
    let mut out: Vec<char> = Vec::new();
    push_pad4(&mut out, yy as i64);
    out.push('-');
    push_pad2(&mut out, mm as i64);
    out.push('-');
    push_pad2(&mut out, dd);
    out.push('T');
    push_pad2(&mut out, h);
    out.push(':');
    push_pad2(&mut out, mi);
    out.push(':');
    push_pad2(&mut out, sec);
    out.push('.');
    push_pad3(&mut out, ms);
    out.push('Z');
    proof {
        assert(out@ =~= spec_format_ms(t as int));
    }
    out
}


/// Law: writing an instant and reading it back is the identity. The
/// canonical text of any representable instant parses to that instant.
#[verifier::rlimit(100)]
pub proof fn lemma_rfc3339_round_trip(t: int)
    requires
        0 <= t <= MAX_ETA_MS as int,
    ensures
        spec_parse_rfc3339(spec_format_ms(t)) == Some(t),
{
    lemma_last_day();
    let dd_ms = MS_PER_DAY as int;
    let days = t / dd_ms;
    let tod = t % dd_ms;
    vstd::arithmetic::div_mod::lemma_fundamental_div_mod(t, dd_ms);
    assert(0 <= tod < dd_ms) by {
        vstd::arithmetic::div_mod::lemma_remainder_lower(t, dd_ms);
        vstd::arithmetic::div_mod::lemma_remainder_upper(t, dd_ms);
    }
    assert(0 <= days <= LAST_EPOCH_DAY as int) by (nonlinear_arith)
        requires
            0 <= t,
            t <= (LAST_EPOCH_DAY as int) * (MS_PER_DAY as int) + (MS_PER_DAY as int) - 1,
            days == t / (MS_PER_DAY as int),
            MS_PER_DAY == 86400000,
            LAST_EPOCH_DAY == 2932896,
            t == (MS_PER_DAY as int) * days + tod,
            0 <= tod < MS_PER_DAY as int,
    ;
    lemma_year_rem(1970, days);
    let (y, doy) = year_rem(1970, days);
    lemma_month_rem(y, 1, doy);
    let (m, dom) = month_rem(y, 1, doy);
    let d = dom + 1;
    let h = tod / (MS_PER_HOUR as int);
    let mi = tod / (MS_PER_MIN as int) % 60;
    let sec = tod / 1000 % 60;
    let ms = tod % 1000;
    assert(0 <= h < 24) by (nonlinear_arith)
        requires
            0 <= tod < 86400000,
            h == tod / (MS_PER_HOUR as int),
            MS_PER_HOUR == 3600000,
    ;
    assert(0 <= mi < 60 && 0 <= sec < 60 && 0 <= ms < 1000);
    // the reconstruction of the time of day from its fields
    assert(h * (MS_PER_HOUR as int) + mi * (MS_PER_MIN as int) + sec * 1000 + ms == tod) by {
        vstd::arithmetic::div_mod::lemma_fundamental_div_mod(tod, 1000);
        vstd::arithmetic::div_mod::lemma_fundamental_div_mod(tod / 1000, 60);
        vstd::arithmetic::div_mod::lemma_fundamental_div_mod(tod / 1000 / 60, 60);
        vstd::arithmetic::div_mod::lemma_div_denominator(tod, 1000, 60);
        vstd::arithmetic::div_mod::lemma_div_denominator(tod, 60000, 60);
        assert(tod / 1000 / 60 == tod / (MS_PER_MIN as int));
        assert(tod / 60000 / 60 == tod / (MS_PER_HOUR as int));
        assert(tod / 1000 / 60 / 60 == tod / (MS_PER_HOUR as int)) by {
            vstd::arithmetic::div_mod::lemma_div_denominator(tod / 1000, 60, 60);
            vstd::arithmetic::div_mod::lemma_div_denominator(tod, 1000, 3600);
            assert(tod / 1000 / 3600 == tod / (MS_PER_HOUR as int));
        }
        assert(tod / 1000 / 60 % 60 == tod / (MS_PER_MIN as int) % 60);
    }
    let s = spec_format_ms(t);
    assert(s =~= seq![
        digit_char(y / 1000 % 10),
        digit_char(y / 100 % 10),
        digit_char(y / 10 % 10),
        digit_char(y % 10),
        '-',
        digit_char(m / 10 % 10),
        digit_char(m % 10),
        '-',
        digit_char(d / 10 % 10),
        digit_char(d % 10),
        'T',
        digit_char(h / 10 % 10),
        digit_char(h % 10),
        ':',
        digit_char(mi / 10 % 10),
        digit_char(mi % 10),
        ':',
        digit_char(sec / 10 % 10),
        digit_char(sec % 10),
        '.',
        digit_char(ms / 100 % 10),
        digit_char(ms / 10 % 10),
        digit_char(ms % 10),
        'Z',
    ]);
    assert(s.len() == 24);
    lemma_split4(y);
    lemma_split2(m);
    lemma_split2(d);
    lemma_split2(h);
    lemma_split2(mi);
    lemma_split2(sec);
    lemma_split3(ms);
    crate::text::lemma_digit_char(y / 1000 % 10);
    crate::text::lemma_digit_char(y / 100 % 10);
    crate::text::lemma_digit_char(y / 10 % 10);
    crate::text::lemma_digit_char(y % 10);
    crate::text::lemma_digit_char(m / 10 % 10);
    crate::text::lemma_digit_char(m % 10);
    crate::text::lemma_digit_char(d / 10 % 10);
    crate::text::lemma_digit_char(d % 10);
    crate::text::lemma_digit_char(h / 10 % 10);
    crate::text::lemma_digit_char(h % 10);
    crate::text::lemma_digit_char(mi / 10 % 10);
    crate::text::lemma_digit_char(mi % 10);
    crate::text::lemma_digit_char(sec / 10 % 10);
    crate::text::lemma_digit_char(sec % 10);
    crate::text::lemma_digit_char(ms / 100 % 10);
    crate::text::lemma_digit_char(ms / 10 % 10);
    crate::text::lemma_digit_char(ms % 10);
    assert(!is_digit('-') && !is_digit('T') && !is_digit(':') && !is_digit('.') && !is_digit('Z'));
    assert(datetime_shape(s));
    assert(d4(s, 0) == y);
    assert(d2(s, 5) == m);
    assert(d2(s, 8) == d);
    assert(d2(s, 11) == h);
    assert(d2(s, 14) == mi);
    assert(d2(s, 17) == sec);
    assert(s[19] == '.');
    assert(frac_end(s, 20) == 23) by {
        reveal_with_fuel(frac_end, 5);
        assert(is_digit(s[20]) && is_digit(s[21]) && is_digit(s[22]) && !is_digit(s[23]));
    }
    assert(frac_ms(s, 20, 23) == ms);
    assert(valid_date(y, m, d));
    assert(valid_time(h, mi, sec, ms));
    assert(spec_offset(s, 23) == Some(0int));
    assert(civil_ms(y, m, d, h, mi, sec, ms) == t) by {
        assert(days_before_year(y) + days_before_month(y, m) + (d - 1) == days);
        assert(days * (MS_PER_DAY as int) + tod == t);
    }
}


/// The canonical text of an instant is 24 characters of plain ASCII:
/// digits and date punctuation, nothing a quoted string must escape.
#[verifier::rlimit(100)]
pub proof fn lemma_format_chars(t: int)
    requires
        0 <= t <= MAX_ETA_MS as int,
    ensures
        spec_format_ms(t).len() == 24,
        forall|k: int|
            0 <= k < spec_format_ms(t).len() ==> 32 <= #[trigger] spec_format_ms(t)[k] as int
                && spec_format_ms(t)[k] != '"' && spec_format_ms(t)[k] != '\\',
{
    let s = spec_format_ms(t);
    assert(s.len() == 24);
    assert forall|k: int|
        0 <= k < s.len() implies 32 <= #[trigger] s[k] as int && s[k] != '"' && s[k]
        != '\\' by {
        let dd_ms = MS_PER_DAY as int;
        let days = t / dd_ms;
        let tod = t % dd_ms;
        let (y, m, d) = spec_date_of_days(days);
        let h = tod / (MS_PER_HOUR as int);
        let mi = tod / (MS_PER_MIN as int) % 60;
        let sec = tod / 1000 % 60;
        let ms = tod % 1000;
        if k == 4 || k == 7 {
            assert(s[k] == '-');
        } else if k == 10 {
            assert(s[k] == 'T');
        } else if k == 13 || k == 16 {
            assert(s[k] == ':');
        } else if k == 19 {
            assert(s[k] == '.');
        } else if k == 23 {
            assert(s[k] == 'Z');
        } else {
            assert(is_digit(s[k])) by {
                lemma_pad_digit(y, 1000, k - 0, s[k]);
                lemma_pad_digit(m, 10, k - 5, s[k]);
                lemma_pad_digit(d, 10, k - 8, s[k]);
                lemma_pad_digit(h, 10, k - 11, s[k]);
                lemma_pad_digit(mi, 10, k - 14, s[k]);
                lemma_pad_digit(sec, 10, k - 17, s[k]);
                lemma_pad_digit(ms, 100, k - 20, s[k]);
            }
        }
    }
}

/// Every character of a zero-padded numeral is a digit.
proof fn lemma_pad_digit(n: int, top: int, off: int, c: char)
    ensures
        (top == 1000 && 0 <= off < 4 && c == pad4(n)[off]) ==> is_digit(c),
        (top == 10 && 0 <= off < 2 && c == pad2(n)[off]) ==> is_digit(c),
        (top == 100 && 0 <= off < 3 && c == pad3(n)[off]) ==> is_digit(c),
{
    crate::text::lemma_digit_char(n / 1000 % 10);
    crate::text::lemma_digit_char(n / 100 % 10);
    crate::text::lemma_digit_char(n / 10 % 10);
    crate::text::lemma_digit_char(n % 10);
    assert(0 <= n / 1000 % 10 < 10 && 0 <= n / 100 % 10 < 10 && 0 <= n / 10 % 10 < 10 && 0 <= n
        % 10 < 10) by (nonlinear_arith);
}

} // verus!
