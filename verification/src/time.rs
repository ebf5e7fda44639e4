//! ISO-8601 UTC timestamps, and just enough date arithmetic to schedule reviews.
//!
//! Study data is stored as `YYYY-MM-DDTHH:MM:SSZ` text rather than as a number:
//! the files stay readable, and UTC timestamps in this fixed-width format sort
//! chronologically as plain text, which turns "is this due?" into a string
//! comparison.
//!
//! The calendar is the proleptic Gregorian one, counted in eras of 400 years
//! (146 097 days) whose years begin on 1 March, so that the leap day is the last
//! day of its year. [`civil_of_days`] and [`days_of_civil`] state that count;
//! the laws at the end of this file prove that formatting and parsing undo each
//! other and that the text order is the order in time.

use vstd::prelude::*;

use crate::text::{
    append_chars, chars_of, decimal, decimal_chars, digit, digit_char, push_char,
    text_before,
};

verus! {

/// The last instant the fixed-width format can spell: `9999-12-31T23:59:59Z`.
///
/// The format is four digits wide, so a time outside `0..=MAX_UNIX` cannot be
/// written in a way this module could read back.
pub const MAX_UNIX: i64 = 253_402_300_799;

// ---------------------------------------------------------------------------
// The calendar
// ---------------------------------------------------------------------------

/// Days in an era of 400 years.
pub open spec fn era_days() -> int {
    146097
}

/// Days from 1 March of year 0 to 1 January 1970.
pub open spec fn epoch_shift() -> int {
    719468
}

/// The year of an era, `0..=399`, that holds the day `doe` (`0..=146096`) of the
/// era: years of 365 days, every fourth one a day longer, except the last of each
/// century but the fourth.
pub open spec fn year_of_era(doe: int) -> int {
    (doe - doe / 1460 + doe / 36524 - doe / 146096) / 365
}

/// Days of an era before its year `yoe`.
pub open spec fn days_before_year(yoe: int) -> int {
    365 * yoe + yoe / 4 - yoe / 100
}

/// Days of a March-based year before its month `mp` (`0` is March, `11` is
/// February): the months run 31, 30, 31, 30, 31, 31, 30, 31, 30, 31, 31, and
/// February last.
pub open spec fn days_before_month(mp: int) -> int {
    (153 * mp + 2) / 5
}

/// The month of a March-based year that holds its day `doy`.
pub open spec fn month_of_year(doy: int) -> int {
    (5 * doy + 2) / 153
}

/// The civil date `(year, month, day)` of the day `z`, counted from 1 January
/// 1970.
#[verifier::opaque]
pub open spec fn civil_of_days(z: int) -> (int, int, int) {
    let z1 = z + epoch_shift();
    let era = z1 / era_days();
    let doe = z1 - era * era_days();
    let yoe = year_of_era(doe);
    let doy = doe - days_before_year(yoe);
    let mp = month_of_year(doy);
    let d = doy - days_before_month(mp) + 1;
    let m = if mp < 10 {
        mp + 3
    } else {
        mp - 9
    };
    let y = yoe + era * 400;
    (if m <= 2 {
        y + 1
    } else {
        y
    }, m, d)
}

/// The day, counted from 1 January 1970, of the civil date `(y, m, d)`.
#[verifier::opaque]
pub open spec fn days_of_civil(y: int, m: int, d: int) -> int {
    let y1 = if m <= 2 {
        y - 1
    } else {
        y
    };
    let era = y1 / 400;
    let yoe = y1 - era * 400;
    let mp = if m > 2 {
        m - 3
    } else {
        m + 9
    };
    let doy = days_before_month(mp) + d - 1;
    era * era_days() + days_before_year(yoe) + doy - epoch_shift()
}

/// Within an era, the year and the day of that year found for a day are in
/// range, and the day is counted from the start of that year.
proof fn lemma_year_of_era(doe: int)
    requires
        0 <= doe <= 146096,
    ensures
        0 <= year_of_era(doe) <= 399,
        0 <= doe - days_before_year(year_of_era(doe)) <= 365,
{
    if doe == 146096 {
        assert(year_of_era(doe) == 399);
        assert(days_before_year(399) == 145731);
    } else {
        let c = doe / 36524;
        let r1 = doe % 36524;
        let q = r1 / 1461;
        let r2 = r1 % 1461;
        assert(0 <= c <= 3);
        assert(0 <= q <= 24);
        assert(doe == 36524 * c + 1461 * q + r2);
        assert(q == 24 ==> r2 <= 1459);
        let delta: int = if 24 * c + q + r2 >= 1460 {
            1
        } else {
            0
        };
        assert(doe == 1460 * (25 * c + q) + (24 * c + q + r2));
        assert(doe / 1460 == 25 * c + q + delta);
        assert(doe / 36524 == c);
        assert(doe / 146096 == 0);
        let f = doe - doe / 1460 + doe / 36524 - doe / 146096;
        assert(f == 36500 * c + 1460 * q + r2 - delta);
        assert(0 <= r2 - delta <= 1459);
        let y = (r2 - delta) / 365;
        assert(0 <= y <= 3);
        assert(f == 365 * (100 * c + 4 * q + y) + (r2 - delta) % 365);
        assert(year_of_era(doe) == 100 * c + 4 * q + y);
        let yoe = 100 * c + 4 * q + y;
        assert(yoe / 4 == 25 * c + q);
        assert(yoe / 100 == c);
        assert(doe - days_before_year(yoe) == r2 - 365 * y);
    }
}

/// Within a March-based year, the month found for a day is in range, and the
/// day of that month is one of its days.
proof fn lemma_month_of_year(doy: int)
    requires
        0 <= doy <= 365,
    ensures
        0 <= month_of_year(doy) <= 11,
        0 <= doy - days_before_month(month_of_year(doy)) <= 30,
{
    let mp = month_of_year(doy);
    assert(153 * mp <= 5 * doy + 2 < 153 * mp + 153);
}

/// Counting the days of the civil date of a day gives that day back.
pub proof fn lemma_days_of_civil_of_days(z: int)
    ensures
        ({
            let (y, m, d) = civil_of_days(z);
            days_of_civil(y, m, d) == z
        }),
{
    reveal(civil_of_days);
    reveal(days_of_civil);
    let z1 = z + epoch_shift();
    let era = z1 / era_days();
    let doe = z1 - era * era_days();
    assert(0 <= doe < 146097);
    lemma_year_of_era(doe);
    let yoe = year_of_era(doe);
    let doy = doe - days_before_year(yoe);
    lemma_month_of_year(doy);
    let mp = month_of_year(doy);
    let y = yoe + era * 400;
    assert(y / 400 == era);
    assert(y - era * 400 == yoe);
}


// ---------------------------------------------------------------------------
// Arithmetic on the day count
// ---------------------------------------------------------------------------

/// `a` divided by `b`, rounded down, and what is left over.
fn floor_div_rem(a: i64, b: i64) -> (r: (i64, i64))
    requires
        b > 0,
    ensures
        r.0 == a / b,
        r.1 == a % b,
{
    if a >= 0 {
        let q = (a as u64) / (b as u64);
        let m = (a as u64) % (b as u64);
        (q as i64, m as i64)
    } else {
        let p = (-(a + 1)) as u64;
        let q = p / (b as u64);
        let m = p % (b as u64);
        proof {
            let ai = a as int;
            let bi = b as int;
            assert(p == -ai - 1);
            assert(p == q * bi + m) by (nonlinear_arith)
                requires
                    q == p / (b as u64),
                    m == p % (b as u64),
                    bi == b,
                    bi > 0,
            ;
            assert(ai == (-(q as int) - 1) * bi + (bi - 1 - m)) by (nonlinear_arith)
                requires
                    p == q * bi + m,
                    ai == -(p as int) - 1,
            ;
            assert(0 <= bi - 1 - m < bi);
            vstd::arithmetic::div_mod::lemma_fundamental_div_mod_converse(
                ai,
                bi,
                -(q as int) - 1,
                bi - 1 - m,
            );
        }
        (-(q as i64) - 1, b - 1 - (m as i64))
    }
}

/// The civil date of the day `z`, counted from 1 January 1970.
fn civil_from_days(z: i64) -> (r: (i64, u32, u32))
    requires
        -0x8000_0000_0000 <= z <= 0x8000_0000_0000,
    ensures
        (r.0 as int, r.1 as int, r.2 as int) == civil_of_days(z as int),
        1 <= r.1 <= 12,
        1 <= r.2 <= 31,
        -0x1_0000_0000_0000 <= r.0 <= 0x1_0000_0000_0000,
{
    reveal(civil_of_days);
    let z1 = z + 719_468;
    let (era, rest) = floor_div_rem(z1, 146_097);
    proof {
        lemma_year_of_era(rest as int);
        let yoe = year_of_era(rest as int);
        lemma_month_of_year(rest - days_before_year(yoe));
    }
    let doe = rest as u64;
    let yoe = (doe - doe / 1460 + doe / 36_524 - doe / 146_096) / 365;
    let year = yoe as i64 + era * 400;
    let doy = doe - (365 * yoe + yoe / 4 - yoe / 100);
    let mp = (5 * doy + 2) / 153;
    let day = (doy - (153 * mp + 2) / 5 + 1) as u32;
    let month = if mp < 10 {
        mp + 3
    } else {
        mp - 9
    } as u32;
    (if month <= 2 {
        year + 1
    } else {
        year
    }, month, day)
}

/// The day, counted from 1 January 1970, of the civil date `(year, month, day)`.
fn days_from_civil(year: i64, month: u32, day: u32) -> (r: i64)
    requires
        0 <= year <= 9999,
        1 <= month <= 12,
        1 <= day <= 31,
    ensures
        r == days_of_civil(year as int, month as int, day as int),
        -800_000 <= r <= 3_000_000,
{
    reveal(days_of_civil);
    let year = if month <= 2 {
        year - 1
    } else {
        year
    };
    let (era, yoe) = floor_div_rem(year, 400);
    let yoe = yoe as u64;
    let mp = if month > 2 {
        month - 3
    } else {
        month + 9
    } as u64;
    let doy = (153 * mp + 2) / 5 + day as u64 - 1;
    let doe = yoe * 365 + yoe / 4 - yoe / 100 + doy;
    era * 146_097 + doe as i64 - 719_468
}


// ---------------------------------------------------------------------------
// Writing a timestamp
// ---------------------------------------------------------------------------

/// `k` zeros, or none when `k` is not positive.
pub open spec fn zeros(k: int) -> Seq<char> {
    Seq::new(
        if k > 0 {
            k as nat
        } else {
            0
        },
        |_i: int| '0',
    )
}

/// `n` in decimal, padded with zeros to `width` characters as `{:0width}`
/// pads it: a minus sign first, then the zeros, then the digits.
pub open spec fn padded(n: int, width: int) -> Seq<char> {
    if n >= 0 {
        zeros(width - decimal(n as nat).len()) + decimal(n as nat)
    } else {
        seq!['-'] + zeros(width - 1 - decimal((-n) as nat).len()) + decimal((-n) as nat)
    }
}

/// The text `YYYY-MM-DDTHH:MM:SSZ` of a date and a time of day.
pub open spec fn stamp(y: int, mo: int, d: int, h: int, mi: int, s: int) -> Seq<char> {
    padded(y, 4) + seq!['-'] + padded(mo, 2) + seq!['-'] + padded(d, 2) + seq!['T'] + padded(h, 2)
        + seq![':'] + padded(mi, 2) + seq![':'] + padded(s, 2) + seq!['Z']
}

/// The ISO-8601 UTC text of the instant `u`, in seconds since 1 January 1970.
pub open spec fn iso_text(u: int) -> Seq<char> {
    let (y, m, d) = civil_of_days(u / 86400);
    let s = u % 86400;
    stamp(y, m, d, s / 3600, s % 3600 / 60, s % 60)
}

/// Appends `n`, zero-padded to `width`, to `out`.
fn push_padded(out: &mut String, n: i64, width: usize)
    requires
        n > i64::MIN,
    ensures
        final(out)@ == old(out)@ + padded(n as int, width as int),
{
    let negative = n < 0;
    let magnitude: u64 = if negative {
        (-n) as u64
    } else {
        n as u64
    };
    let digits = decimal_chars(magnitude);
    let ghost start = out@;
    let taken: usize = if negative {
        push_char(out, '-');
        1
    } else {
        0
    };
    let fill: usize = if taken < width && digits.len() < width - taken {
        width - digits.len() - taken
    } else {
        0
    };
    let ghost lead = out@;
    let mut k: usize = 0;
    while k < fill
        invariant
            k <= fill,
            out@ == lead + zeros(k as int),
        decreases fill - k,
    {
        push_char(out, '0');
        assert(zeros(k + 1) =~= zeros(k as int).push('0'));
        k += 1;
    }
    append_chars(out, &digits);
    proof {
        assert(zeros(fill as int) =~= zeros(width - taken - decimal(magnitude as nat).len()));
        if negative {
            assert(out@ =~= start + padded(n as int, width as int));
        } else {
            assert(out@ =~= start + padded(n as int, width as int));
        }
    }
}

/// Format a Unix timestamp as ISO-8601 UTC, e.g. `2009-02-13T23:31:30Z`.
pub fn iso8601_from_unix(seconds: i64) -> (r: String)
    ensures
        r@ == iso_text(seconds as int),
{
    let (days, secs_of_day) = floor_div_rem(seconds, 86_400);
    assert(-0x8000_0000_0000 <= days <= 0x8000_0000_0000) by (nonlinear_arith)
        requires
            days == seconds / 86400,
            i64::MIN <= seconds <= i64::MAX,
    ;
    let (year, month, day) = civil_from_days(days);
    let mut out = String::new();
    push_padded(&mut out, year, 4);
    push_char(&mut out, '-');
    push_padded(&mut out, month as i64, 2);
    push_char(&mut out, '-');
    push_padded(&mut out, day as i64, 2);
    push_char(&mut out, 'T');
    push_padded(&mut out, secs_of_day / 3600, 2);
    push_char(&mut out, ':');
    push_padded(&mut out, (secs_of_day % 3600) / 60, 2);
    push_char(&mut out, ':');
    push_padded(&mut out, secs_of_day % 60, 2);
    push_char(&mut out, 'Z');
    assert(out@ =~= iso_text(seconds as int));
    out
}


// ---------------------------------------------------------------------------
// The clock
// ---------------------------------------------------------------------------

#[verifier::external_type_specification]
#[verifier::external_body]
pub struct ExSystemTime(std::time::SystemTime);

/// `SystemTime::now`: the machine's clock, of which nothing is known.
#[verifier::external_body]
fn clock_now() -> std::time::SystemTime {
    std::time::SystemTime::now()
}

/// `SystemTime::duration_since(UNIX_EPOCH)`: how long after 1 January 1970 the
/// time `t` is, or `None` for a time before it.
#[verifier::external_body]
fn since_epoch(t: &std::time::SystemTime) -> Option<std::time::Duration> {
    match t.duration_since(std::time::UNIX_EPOCH) {
        Ok(d) => Some(d),
        Err(_) => None,
    }
}

/// `Duration::as_secs`: the whole seconds of `d`.
#[verifier::external_body]
fn whole_seconds(d: &std::time::Duration) -> u64 {
    d.as_secs()
}

/// The current time as an ISO-8601 UTC string, e.g. `2026-09-19T00:12:34Z`; the
/// epoch itself when the clock reads earlier than that.
pub fn now_iso8601() -> (r: String)
    ensures
        exists|u: int| i64::MIN <= u <= i64::MAX && r@ == iso_text(u),
{
    let seconds: i64 = match since_epoch(&clock_now()) {
        Some(d) => {
            let s = whole_seconds(&d);
            #[verifier::truncate]
            (s as i64)
        },
        None => 0,
    };
    iso8601_from_unix(seconds)
}

// ---------------------------------------------------------------------------
// Reading a timestamp
// ---------------------------------------------------------------------------

/// The value of an ASCII digit.
pub open spec fn digit_value(c: char) -> int {
    c as int - '0' as int
}

/// The number a run of ASCII digits spells, most significant first.
pub open spec fn digits_value(s: Seq<char>) -> int
    decreases s.len(),
{
    if s.len() == 0 {
        0
    } else {
        digits_value(s.drop_last()) * 10 + digit_value(s.last())
    }
}

/// Every character of `t` from `from` up to `to` is an ASCII digit.
pub open spec fn all_digits(t: Seq<char>, from: int, to: int) -> bool {
    forall|i: int| from <= i < to ==> digit(#[trigger] t[i])
}

/// The number written in `t` from `from` up to `to`.
pub open spec fn field(t: Seq<char>, from: int, to: int) -> int {
    digits_value(t.subrange(from, to))
}

/// `t` has the shape `DDDD-DD-DDTDD:DD:DDZ`, with an ASCII digit at each `D`.
pub open spec fn iso_shape(t: Seq<char>) -> bool {
    &&& t.len() == 20
    &&& t[4] == '-' && t[7] == '-' && t[10] == 'T'
    &&& t[13] == ':' && t[16] == ':' && t[19] == 'Z'
    &&& all_digits(t, 0, 4) && all_digits(t, 5, 7) && all_digits(t, 8, 10)
    &&& all_digits(t, 11, 13) && all_digits(t, 14, 16) && all_digits(t, 17, 19)
}

/// The instant that the text `t` names, in seconds since 1 January 1970: `None`
/// unless it has the fixed shape, a real month, a day that the month has (the
/// date found again from its day count), and a real time of day.
pub open spec fn iso_value(t: Seq<char>) -> Option<int> {
    let y = field(t, 0, 4);
    let mo = field(t, 5, 7);
    let d = field(t, 8, 10);
    let h = field(t, 11, 13);
    let mi = field(t, 14, 16);
    let s = field(t, 17, 19);
    if iso_shape(t) && 1 <= mo <= 12 && 1 <= d <= 31 && h <= 23 && mi <= 59 && s <= 59
        && civil_of_days(days_of_civil(y, mo, d)) == (y, mo, d) {
        Some(days_of_civil(y, mo, d) * 86400 + h * 3600 + mi * 60 + s)
    } else {
        None
    }
}

/// Ten to the power `n`.
pub open spec fn ten_to(n: nat) -> int
    decreases n,
{
    if n == 0 {
        1
    } else {
        10 * ten_to((n - 1) as nat)
    }
}

/// The number written in the ASCII digits `t[from..to]`, or `None` when one of
/// them is not a digit.
fn read_field(t: &Vec<char>, from: usize, to: usize) -> (r: Option<i64>)
    requires
        from <= to <= t.len(),
        to - from <= 4,
    ensures
        match r {
            Some(v) => all_digits(t@, from as int, to as int) && v == field(
                t@,
                from as int,
                to as int,
            ) && 0 <= v < 10000,
            None => !all_digits(t@, from as int, to as int),
        },
{
    let mut value: i64 = 0;
    let mut i: usize = from;
    while i < to
        invariant
            from <= i <= to,
            to <= t.len(),
            to - from <= 4,
            all_digits(t@, from as int, i as int),
            value == field(t@, from as int, i as int),
            0 <= value < ten_to((i - from) as nat),
        decreases to - i,
    {
        let c = t[i];
        if !('0' <= c && c <= '9') {
            return None;
        }
        proof {
            assert(t@.subrange(from as int, i + 1).drop_last() =~= t@.subrange(
                from as int,
                i as int,
            ));
            reveal_with_fuel(ten_to, 4);
            assert(ten_to((i + 1 - from) as nat) == 10 * ten_to((i - from) as nat));
        }
        value = value * 10 + (c as u32 - '0' as u32) as i64;
        i += 1;
    }
    proof {
        reveal_with_fuel(ten_to, 5);
    }
    Some(value)
}

/// Parse an ISO-8601 UTC string back to a Unix timestamp.
///
/// Accepts exactly what [`iso8601_from_unix`] writes for the instants
/// `0..=MAX_UNIX`, and nothing else: every field is a fixed-width run of ASCII
/// digits, so no field can carry a sign or a blank, and a date the calendar does
/// not have, such as `2026-02-30`, is refused rather than read as March.
pub fn parse_iso8601(text: &str) -> (r: Option<i64>)
    ensures
        match r {
            Some(u) => iso_value(text@) == Some(u as int),
            None => iso_value(text@) is None,
        },
{
    let t = chars_of(text);
    if t.len() != 20 || t[4] != '-' || t[7] != '-' || t[10] != 'T' || t[13] != ':' || t[16]
        != ':' || t[19] != 'Z' {
        return None;
    }
    let year = match read_field(&t, 0, 4) {
        Some(v) => v,
        None => return None,
    };
    let month = match read_field(&t, 5, 7) {
        Some(v) => v,
        None => return None,
    };
    let day = match read_field(&t, 8, 10) {
        Some(v) => v,
        None => return None,
    };
    let hour = match read_field(&t, 11, 13) {
        Some(v) => v,
        None => return None,
    };
    let minute = match read_field(&t, 14, 16) {
        Some(v) => v,
        None => return None,
    };
    let second = match read_field(&t, 17, 19) {
        Some(v) => v,
        None => return None,
    };
    if !(1 <= month && month <= 12) || !(1 <= day && day <= 31) || hour > 23 || minute > 59
        || second > 59 {
        return None;
    }
    let days = days_from_civil(year, month as u32, day as u32);
    let (y2, m2, d2) = civil_from_days(days);
    if y2 != year || m2 as i64 != month || d2 as i64 != day {
        return None;
    }
    Some(days * 86_400 + hour * 3600 + minute * 60 + second)
}


/// `seconds` after the instant `from`, as an ISO-8601 UTC string.
///
/// `None` when `from` cannot be parsed or the result leaves `0..=MAX_UNIX`; a
/// returned string is always one that [`parse_iso8601`] reads back.
pub fn add_seconds(from: &str, seconds: i64) -> (r: Option<String>)
    ensures
        match iso_value(from@) {
            None => r is None,
            Some(u) => if 0 <= u + seconds <= MAX_UNIX {
                &&& r is Some
                &&& r->0@ == iso_text(u + seconds)
                &&& iso_value(r->0@) == Some(u + seconds)
            } else {
                r is None
            },
        },
{
    let unix = match parse_iso8601(from) {
        Some(u) => u,
        None => return None,
    };
    let moved = match unix.checked_add(seconds) {
        Some(v) => v,
        None => return None,
    };
    if !(0 <= moved && moved <= MAX_UNIX) {
        return None;
    }
    proof {
        law_parse_reads_what_format_writes(moved as int);
    }
    Some(iso8601_from_unix(moved))
}

// ---------------------------------------------------------------------------
// Laws
// ---------------------------------------------------------------------------

proof fn lemma_digit_char(d: nat)
    requires
        d < 10,
    ensures
        digit(digit_char(d)),
        digit_value(digit_char(d)) == d,
{
}

/// The digits of a number are digits, and spell it.
proof fn lemma_decimal(n: nat)
    ensures
        all_digits(decimal(n), 0, decimal(n).len() as int),
        digits_value(decimal(n)) == n,
        1 <= decimal(n).len(),
        forall|k: nat| 1 <= k && n < #[trigger] ten_to(k) ==> decimal(n).len() <= k,
    decreases n,
{
    if n < 10 {
        lemma_digit_char(n);
        assert(decimal(n).drop_last() =~= Seq::<char>::empty());
        assert(decimal(n).last() == digit_char(n));
        assert(digits_value(Seq::<char>::empty()) == 0);
        assert forall|k: nat| 1 <= k && n < #[trigger] ten_to(k) implies decimal(n).len() <= k by {
        }
    } else {
        lemma_decimal(n / 10);
        lemma_digit_char(n % 10);
        let rest = decimal(n / 10);
        assert(decimal(n).drop_last() =~= rest);
        assert(decimal(n).last() == digit_char(n % 10));
        assert(digits_value(decimal(n)) == digits_value(rest) * 10 + digit_value(digit_char(n % 10)));
        assert(all_digits(decimal(n), 0, decimal(n).len() as int));
        assert forall|k: nat| 1 <= k && n < #[trigger] ten_to(k) implies decimal(n).len() <= k by {
            if k == 1 {
                reveal_with_fuel(ten_to, 2);
            } else {
                assert(ten_to(k) == 10 * ten_to((k - 1) as nat));
                assert(n / 10 < ten_to((k - 1) as nat));
            }
        }
    }
}

/// The value of digits written one after the other.
proof fn lemma_digits_value_concat(a: Seq<char>, b: Seq<char>)
    ensures
        digits_value(a + b) == digits_value(a) * ten_to(b.len()) + digits_value(b),
    decreases b.len(),
{
    if b.len() == 0 {
        assert(a + b =~= a);
    } else {
        lemma_digits_value_concat(a, b.drop_last());
        assert((a + b).drop_last() =~= a + b.drop_last());
        assert((a + b).last() == b.last());
        let x = digits_value(a);
        let p = ten_to((b.len() - 1) as nat);
        let y = digits_value(b.drop_last());
        assert((x * p + y) * 10 == x * (10 * p) + y * 10) by (nonlinear_arith);
    }
}

/// Zeros are worth nothing.
proof fn lemma_zeros_value(k: int)
    ensures
        digits_value(zeros(k)) == 0,
        all_digits(zeros(k), 0, zeros(k).len() as int),
    decreases k,
{
    if k > 0 {
        lemma_zeros_value(k - 1);
        assert(zeros(k).drop_last() =~= zeros(k - 1));
    }
}

/// A number below `10^width`, padded to `width`, is `width` digits that spell it.
proof fn lemma_padded(n: int, width: nat)
    requires
        1 <= width,
        0 <= n < ten_to(width),
    ensures
        padded(n, width as int).len() == width,
        all_digits(padded(n, width as int), 0, width as int),
        digits_value(padded(n, width as int)) == n,
{
    lemma_decimal(n as nat);
    let d = decimal(n as nat);
    let z = zeros(width - d.len());
    lemma_zeros_value(width - d.len());
    lemma_digits_value_concat(z, d);
    assert(padded(n, width as int) == z + d);
}

/// Two runs of digits of one length that spell one number are the same run.
proof fn lemma_digits_unique(a: Seq<char>, b: Seq<char>)
    requires
        a.len() == b.len(),
        all_digits(a, 0, a.len() as int),
        all_digits(b, 0, b.len() as int),
        digits_value(a) == digits_value(b),
    ensures
        a == b,
    decreases a.len(),
{
    if a.len() > 0 {
        let a0 = a.drop_last();
        let b0 = b.drop_last();
        assert(all_digits(a0, 0, a0.len() as int));
        assert(all_digits(b0, 0, b0.len() as int));
        assert(digit(a[a.len() - 1]));
        assert(digit(b[b.len() - 1]));
        lemma_digits_nonneg(a0);
        lemma_digits_nonneg(b0);
        assert(digits_value(a0) == digits_value(b0));
        lemma_digits_unique(a0, b0);
        assert(a.last() == b.last());
        assert(a =~= a0.push(a.last()));
        assert(b =~= b0.push(b.last()));
    } else {
        assert(a =~= b);
    }
}

proof fn lemma_digits_nonneg(a: Seq<char>)
    requires
        all_digits(a, 0, a.len() as int),
    ensures
        digits_value(a) >= 0,
    decreases a.len(),
{
    if a.len() > 0 {
        assert(all_digits(a.drop_last(), 0, a.len() - 1));
        lemma_digits_nonneg(a.drop_last());
    }
}

/// The digits `t[from..from + width]`, padded back out, are themselves.
proof fn lemma_field_padded(t: Seq<char>, from: int, width: nat)
    requires
        1 <= width,
        0 <= from,
        from + width <= t.len(),
        all_digits(t, from, from + width),
    ensures
        padded(field(t, from, from + width), width as int) == t.subrange(from, from + width),
        0 <= field(t, from, from + width) < ten_to(width),
{
    let x = t.subrange(from, from + width);
    assert(all_digits(x, 0, width as int));
    lemma_digits_bound(x);
    lemma_padded(digits_value(x), width);
    lemma_digits_unique(padded(digits_value(x), width as int), x);
}

proof fn lemma_digits_bound(a: Seq<char>)
    requires
        all_digits(a, 0, a.len() as int),
    ensures
        0 <= digits_value(a) < ten_to(a.len()),
    decreases a.len(),
{
    if a.len() > 0 {
        assert(all_digits(a.drop_last(), 0, a.len() - 1));
        lemma_digits_bound(a.drop_last());
        assert(digit(a[a.len() - 1]));
    }
}

/// A date found for an instant from 1970 to the end of 9999 has a four-digit
/// year, a month and a day of the month.
proof fn lemma_civil_in_range(z: int)
    requires
        0 <= z <= 2932896,
    ensures
        ({
            let (y, m, d) = civil_of_days(z);
            0 <= y <= 9999 && 1 <= m <= 12 && 1 <= d <= 31
        }),
{
    reveal(civil_of_days);
    let z1 = z + epoch_shift();
    let era = z1 / era_days();
    let doe = z1 - era * era_days();
    lemma_year_of_era(doe);
    let yoe = year_of_era(doe);
    let doy = doe - days_before_year(yoe);
    lemma_month_of_year(doy);
    if era == 24 && yoe == 399 {
        assert(doy <= 305);
    }
}

/// A stamp of fields in range has the fixed shape, and its fields read back.
proof fn lemma_stamp_read(y: int, mo: int, d: int, h: int, mi: int, s: int)
    requires
        0 <= y < 10000,
        0 <= mo < 100,
        0 <= d < 100,
        0 <= h < 100,
        0 <= mi < 100,
        0 <= s < 100,
    ensures
        iso_shape(stamp(y, mo, d, h, mi, s)),
        field(stamp(y, mo, d, h, mi, s), 0, 4) == y,
        field(stamp(y, mo, d, h, mi, s), 5, 7) == mo,
        field(stamp(y, mo, d, h, mi, s), 8, 10) == d,
        field(stamp(y, mo, d, h, mi, s), 11, 13) == h,
        field(stamp(y, mo, d, h, mi, s), 14, 16) == mi,
        field(stamp(y, mo, d, h, mi, s), 17, 19) == s,
        stamp(y, mo, d, h, mi, s).subrange(0, 4) == padded(y, 4),
        stamp(y, mo, d, h, mi, s).subrange(5, 7) == padded(mo, 2),
        stamp(y, mo, d, h, mi, s).subrange(8, 10) == padded(d, 2),
        stamp(y, mo, d, h, mi, s).subrange(11, 13) == padded(h, 2),
        stamp(y, mo, d, h, mi, s).subrange(14, 16) == padded(mi, 2),
        stamp(y, mo, d, h, mi, s).subrange(17, 19) == padded(s, 2),
{
    reveal_with_fuel(ten_to, 5);
    lemma_padded(y, 4);
    lemma_padded(mo, 2);
    lemma_padded(d, 2);
    lemma_padded(h, 2);
    lemma_padded(mi, 2);
    lemma_padded(s, 2);
    let t = stamp(y, mo, d, h, mi, s);
    assert(t.subrange(0, 4) =~= padded(y, 4));
    assert(t.subrange(5, 7) =~= padded(mo, 2));
    assert(t.subrange(8, 10) =~= padded(d, 2));
    assert(t.subrange(11, 13) =~= padded(h, 2));
    assert(t.subrange(14, 16) =~= padded(mi, 2));
    assert(t.subrange(17, 19) =~= padded(s, 2));
}

/// Text of the fixed shape is the stamp of its own fields.
proof fn lemma_stamp_of_shape(t: Seq<char>)
    requires
        iso_shape(t),
    ensures
        stamp(
            field(t, 0, 4),
            field(t, 5, 7),
            field(t, 8, 10),
            field(t, 11, 13),
            field(t, 14, 16),
            field(t, 17, 19),
        ) == t,
{
    reveal_with_fuel(ten_to, 5);
    lemma_field_padded(t, 0, 4);
    lemma_field_padded(t, 5, 2);
    lemma_field_padded(t, 8, 2);
    lemma_field_padded(t, 11, 2);
    lemma_field_padded(t, 14, 2);
    lemma_field_padded(t, 17, 2);
    assert(stamp(
        field(t, 0, 4),
        field(t, 5, 7),
        field(t, 8, 10),
        field(t, 11, 13),
        field(t, 14, 16),
        field(t, 17, 19),
    ) =~= t);
}

/// No date with a four-digit year lies after the last day of 9999.
proof fn lemma_days_of_civil_at_most(y: int, m: int, d: int)
    requires
        0 <= y <= 9999,
        1 <= m <= 12,
        1 <= d <= 31,
    ensures
        days_of_civil(y, m, d) <= 2932896,
{
    reveal(days_of_civil);
    let y1 = if m <= 2 {
        y - 1
    } else {
        y
    };
    let era = y1 / 400;
    let yoe = y1 - era * 400;
    let mp = if m > 2 {
        m - 3
    } else {
        m + 9
    };
    assert(0 <= yoe < 400);
    assert(era <= 24);
    assert(0 <= mp <= 11);
    assert(days_before_month(mp) <= 337);
    if y1 == 9999 {
        assert(era == 24 && yoe == 399);
        assert(mp <= 9);
        assert(days_before_month(mp) <= 275);
        assert(days_before_year(yoe) == 145731);
    } else if era == 24 {
        assert(yoe <= 398);
        assert(days_before_year(yoe) <= 145369);
    } else {
        assert(era <= 23);
        assert(days_before_year(yoe) <= 145734);
    }
}

/// Every instant that parses lies at or before the end of 9999, the last the
/// format can spell: `MAX_UNIX` bounds what is read as it bounds what is
/// written.
pub proof fn law_a_parsed_instant_is_at_most_max_unix(t: Seq<char>)
    requires
        iso_value(t) is Some,
    ensures
        iso_value(t)->0 <= MAX_UNIX,
{
    assert(iso_shape(t));
    lemma_field_padded(t, 0, 4);
    reveal_with_fuel(ten_to, 5);
    let y = field(t, 0, 4);
    let mo = field(t, 5, 7);
    let d = field(t, 8, 10);
    lemma_days_of_civil_at_most(y, mo, d);
}

/// Reading what was written gives the instant back, for every instant the
/// format can spell.
pub proof fn law_parse_reads_what_format_writes(u: int)
    requires
        0 <= u <= MAX_UNIX,
    ensures
        iso_value(iso_text(u)) == Some(u),
{
    let days = u / 86400;
    let s = u % 86400;
    let (y, m, d) = civil_of_days(days);
    lemma_civil_in_range(days);
    lemma_days_of_civil_of_days(days);
    lemma_stamp_read(y, m, d, s / 3600, s % 3600 / 60, s % 60);
    assert(u == days * 86400 + s);
}

/// Anything that parses is an instant that formats back as the same text.
pub proof fn law_format_writes_what_parse_read(t: Seq<char>)
    requires
        iso_value(t) is Some,
    ensures
        iso_text(iso_value(t)->0) == t,
{
    let y = field(t, 0, 4);
    let mo = field(t, 5, 7);
    let d = field(t, 8, 10);
    let h = field(t, 11, 13);
    let mi = field(t, 14, 16);
    let s = field(t, 17, 19);
    assert(iso_shape(t));
    lemma_stamp_of_shape(t);
    let days = days_of_civil(y, mo, d);
    assert(civil_of_days(days) == (y, mo, d));
    let r = h * 3600 + mi * 60 + s;
    let v = days * 86400 + r;
    assert(iso_value(t) == Some(v));
    reveal_with_fuel(ten_to, 3);
    lemma_field_padded(t, 11, 2);
    lemma_field_padded(t, 14, 2);
    lemma_field_padded(t, 17, 2);
    assert(0 <= h <= 23 && 0 <= mi <= 59 && 0 <= s <= 59);
    assert(0 <= r < 86400);
    vstd::arithmetic::div_mod::lemma_fundamental_div_mod_converse(v, 86400, days, r);
    vstd::arithmetic::div_mod::lemma_fundamental_div_mod_converse(r, 3600, h, mi * 60 + s);
    vstd::arithmetic::div_mod::lemma_fundamental_div_mod_converse(mi * 60 + s, 60, mi, s);
    vstd::arithmetic::div_mod::lemma_fundamental_div_mod_converse(r, 60, h * 60 + mi, s);
    assert(r / 3600 == h);
    assert(r % 3600 / 60 == mi);
    assert(r % 60 == s);
    assert(iso_text(v) == stamp(y, mo, d, h, mi, s));
}


/// A padded number is the padded number of its leading digits, then its last
/// digit.
proof fn lemma_padded_split(x: int, w: nat)
    requires
        2 <= w <= 4,
        0 <= x < ten_to(w),
    ensures
        padded(x, w as int) == padded(x / 10, w - 1).push(digit_char((x % 10) as nat)),
{
    lemma_padded(x, w);
    assert(x / 10 < ten_to((w - 1) as nat));
    lemma_padded(x / 10, (w - 1) as nat);
    lemma_digit_char((x % 10) as nat);
    let r = padded(x / 10, w - 1).push(digit_char((x % 10) as nat));
    assert(r.drop_last() =~= padded(x / 10, w - 1));
    assert(all_digits(r, 0, w as int));
    lemma_digits_unique(padded(x, w as int), r);
}

/// Of two padded numbers of one width, the smaller has the smaller digit where
/// they first differ.
proof fn lemma_padded_order(x: int, y: int, w: nat)
    requires
        1 <= w <= 4,
        0 <= x < y < ten_to(w),
    ensures
        exists|i: int|
            0 <= i < w && padded(x, w as int).take(i) == padded(y, w as int).take(i) && padded(
                x,
                w as int,
            )[i] < padded(y, w as int)[i],
    decreases w,
{
    lemma_padded(x, w);
    lemma_padded(y, w);
    if w == 1 {
        reveal_with_fuel(ten_to, 2);
        lemma_padded_split_one(x);
        lemma_padded_split_one(y);
        assert(padded(x, 1).take(0) =~= padded(y, 1).take(0));
    } else {
        lemma_padded_split(x, w);
        lemma_padded_split(y, w);
        let px = padded(x / 10, w - 1);
        let py = padded(y / 10, w - 1);
        lemma_padded(x / 10, (w - 1) as nat);
        lemma_padded(y / 10, (w - 1) as nat);
        if x / 10 < y / 10 {
            lemma_padded_order(x / 10, y / 10, (w - 1) as nat);
            let i = choose|i: int|
                0 <= i < w - 1 && px.take(i) == py.take(i) && px[i] < py[i];
            assert(padded(x, w as int).take(i) =~= px.take(i));
            assert(padded(y, w as int).take(i) =~= py.take(i));
        } else {
            assert(x / 10 == y / 10);
            assert(x % 10 < y % 10);
            let i = w - 1;
            assert(padded(x, w as int).take(i) =~= px);
            assert(padded(y, w as int).take(i) =~= py);
            assert(digit_char((x % 10) as nat) < digit_char((y % 10) as nat));
        }
    }
}

proof fn lemma_padded_split_one(x: int)
    requires
        0 <= x < 10,
    ensures
        padded(x, 1) == seq![digit_char(x as nat)],
{
    assert(decimal(x as nat).len() == 1);
    assert(zeros(0) =~= Seq::<char>::empty());
    assert(padded(x, 1) =~= seq![digit_char(x as nat)]);
}


/// Two texts of one length that agree up to `o`, where a padded field starts in
/// each and the first is the smaller, are in that order.
proof fn lemma_before_at(a: Seq<char>, b: Seq<char>, o: int, w: int, pa: Seq<char>, pb: Seq<char>)
    requires
        a.len() == b.len(),
        0 <= o,
        o + w <= a.len(),
        a.subrange(o, o + w) == pa,
        b.subrange(o, o + w) == pb,
        a.take(o) == b.take(o),
        exists|i: int| 0 <= i < w && pa.take(i) == pb.take(i) && pa[i] < pb[i],
    ensures
        text_before(a, b),
{
    let i = choose|i: int| 0 <= i < w && pa.take(i) == pb.take(i) && pa[i] < pb[i];
    assert forall|j: int| 0 <= j < o + i implies a[j] == b[j] by {
        if j < o {
            assert(a.take(o)[j] == a[j]);
            assert(b.take(o)[j] == b[j]);
            assert(a.take(o)[j] == b.take(o)[j]);
        } else {
            let k = j - o;
            assert(0 <= k < i);
            assert(pa.take(i)[k] == pa[k]);
            assert(pb.take(i)[k] == pb[k]);
            assert(pa.take(i)[k] == pb.take(i)[k]);
            assert(a.subrange(o, o + w)[k] == a[j]);
            assert(b.subrange(o, o + w)[k] == b[j]);
        }
    }
    assert(a.take(o + i) =~= b.take(o + i));
    assert(a.subrange(o, o + w)[i] == a[o + i]);
    assert(b.subrange(o, o + w)[i] == b[o + i]);
    assert(crate::text::before_at(a, b, o + i));
}

/// Stamps of fields in range are in the lexicographic order of their fields.
proof fn lemma_stamp_order(
    y1: int,
    mo1: int,
    d1: int,
    h1: int,
    mi1: int,
    s1: int,
    y2: int,
    mo2: int,
    d2: int,
    h2: int,
    mi2: int,
    s2: int,
)
    requires
        0 <= y1 < 10000 && 0 <= mo1 < 100 && 0 <= d1 < 100,
        0 <= h1 < 100 && 0 <= mi1 < 100 && 0 <= s1 < 100,
        0 <= y2 < 10000 && 0 <= mo2 < 100 && 0 <= d2 < 100,
        0 <= h2 < 100 && 0 <= mi2 < 100 && 0 <= s2 < 100,
        y1 < y2 || (y1 == y2 && (mo1 < mo2 || (mo1 == mo2 && (d1 < d2 || (d1 == d2 && (h1 < h2
            || (h1 == h2 && (mi1 < mi2 || (mi1 == mi2 && s1 < s2))))))))),
    ensures
        text_before(stamp(y1, mo1, d1, h1, mi1, s1), stamp(y2, mo2, d2, h2, mi2, s2)),
{
    reveal_with_fuel(ten_to, 5);
    let a = stamp(y1, mo1, d1, h1, mi1, s1);
    let b = stamp(y2, mo2, d2, h2, mi2, s2);
    lemma_stamp_read(y1, mo1, d1, h1, mi1, s1);
    lemma_stamp_read(y2, mo2, d2, h2, mi2, s2);
    if y1 < y2 {
        lemma_padded_order(y1, y2, 4);
        assert(a.take(0) =~= b.take(0));
        lemma_before_at(a, b, 0, 4, padded(y1, 4), padded(y2, 4));
    } else {
        assert forall|j: int| 0 <= j < 5 implies a[j] == b[j] by {
            if j < 4 {
                assert(a.subrange(0, 4)[j] == b.subrange(0, 4)[j]);
            }
        }
        if mo1 < mo2 {
            lemma_padded_order(mo1, mo2, 2);
            assert(a.take(5) =~= b.take(5));
            lemma_before_at(a, b, 5, 2, padded(mo1, 2), padded(mo2, 2));
        } else {
            assert forall|j: int| 0 <= j < 8 implies a[j] == b[j] by {
                if 5 <= j < 7 {
                    assert(a.subrange(5, 7)[j - 5] == b.subrange(5, 7)[j - 5]);
                }
            }
            if d1 < d2 {
                lemma_padded_order(d1, d2, 2);
                assert(a.take(8) =~= b.take(8));
                lemma_before_at(a, b, 8, 2, padded(d1, 2), padded(d2, 2));
            } else {
                assert forall|j: int| 0 <= j < 11 implies a[j] == b[j] by {
                    if 8 <= j < 10 {
                        assert(a.subrange(8, 10)[j - 8] == b.subrange(8, 10)[j - 8]);
                    }
                }
                if h1 < h2 {
                    lemma_padded_order(h1, h2, 2);
                    assert(a.take(11) =~= b.take(11));
                    lemma_before_at(a, b, 11, 2, padded(h1, 2), padded(h2, 2));
                } else {
                    assert forall|j: int| 0 <= j < 14 implies a[j] == b[j] by {
                        if 11 <= j < 13 {
                            assert(a.subrange(11, 13)[j - 11] == b.subrange(11, 13)[j - 11]);
                        }
                    }
                    if mi1 < mi2 {
                        lemma_padded_order(mi1, mi2, 2);
                        assert(a.take(14) =~= b.take(14));
                        lemma_before_at(a, b, 14, 2, padded(mi1, 2), padded(mi2, 2));
                    } else {
                        assert forall|j: int| 0 <= j < 17 implies a[j] == b[j] by {
                            if 14 <= j < 16 {
                                assert(a.subrange(14, 16)[j - 14] == b.subrange(14, 16)[j
                                    - 14]);
                            }
                        }
                        lemma_padded_order(s1, s2, 2);
                        assert(a.take(17) =~= b.take(17));
                        lemma_before_at(a, b, 17, 2, padded(s1, 2), padded(s2, 2));
                    }
                }
            }
        }
    }
}


/// Later days of an era fall in the same year of it or a later one.
proof fn lemma_year_of_era_monotone(doe1: int, doe2: int)
    requires
        0 <= doe1 < doe2 <= 146096,
    ensures
        year_of_era(doe1) <= year_of_era(doe2),
{
    lemma_year_of_era(doe1);
    let f1 = doe1 - doe1 / 1460 + doe1 / 36524 - doe1 / 146096;
    let f2 = doe2 - doe2 / 1460 + doe2 / 36524 - doe2 / 146096;
    if doe2 == 146096 {
        assert(f2 == 145999);
        assert(f1 / 365 <= 399);
        assert(f1 < 146000);
    } else {
        let a1 = doe1 / 1460;
        let a2 = doe2 / 1460;
        assert(1460 * a1 <= doe1);
        assert(doe2 < 1460 * a2 + 1460);
        assert(a2 - a1 <= doe2 - doe1);
        assert(doe1 / 36524 <= doe2 / 36524);
        assert(f1 <= f2);
    }
}

/// Whether the civil date `a` comes before `b`.
pub open spec fn civil_before(a: (int, int, int), b: (int, int, int)) -> bool {
    a.0 < b.0 || (a.0 == b.0 && (a.1 < b.1 || (a.1 == b.1 && a.2 < b.2)))
}

/// Later days have later civil dates.
pub proof fn lemma_civil_monotone(z1: int, z2: int)
    requires
        z1 < z2,
    ensures
        civil_before(civil_of_days(z1), civil_of_days(z2)),
{
    reveal(civil_of_days);
    let w1 = z1 + epoch_shift();
    let w2 = z2 + epoch_shift();
    let era1 = w1 / era_days();
    let era2 = w2 / era_days();
    let doe1 = w1 - era1 * era_days();
    let doe2 = w2 - era2 * era_days();
    lemma_year_of_era(doe1);
    lemma_year_of_era(doe2);
    let yoe1 = year_of_era(doe1);
    let yoe2 = year_of_era(doe2);
    let doy1 = doe1 - days_before_year(yoe1);
    let doy2 = doe2 - days_before_year(yoe2);
    lemma_month_of_year(doy1);
    lemma_month_of_year(doy2);
    let mp1 = month_of_year(doy1);
    let mp2 = month_of_year(doy2);
    let big1 = yoe1 + era1 * 400;
    let big2 = yoe2 + era2 * 400;
    assert(era1 <= era2);
    if era1 < era2 {
        assert(big1 < big2);
    } else {
        lemma_year_of_era_monotone(doe1, doe2);
        if yoe1 == yoe2 {
            assert(doy1 < doy2);
            assert(mp1 <= mp2);
            if mp1 == mp2 {
                assert(doy1 - days_before_month(mp1) < doy2 - days_before_month(mp2));
            }
        }
    }
}

/// Later instants have later text: for instants from 1970 to the end of 9999,
/// the order of the timestamps as strings is their order in time.
pub proof fn law_text_order_is_time_order(u1: int, u2: int)
    requires
        0 <= u1 < u2 <= MAX_UNIX,
    ensures
        text_before(iso_text(u1), iso_text(u2)),
{
    let days1 = u1 / 86400;
    let days2 = u2 / 86400;
    let r1 = u1 % 86400;
    let r2 = u2 % 86400;
    lemma_civil_in_range(days1);
    lemma_civil_in_range(days2);
    let (y1, m1, d1) = civil_of_days(days1);
    let (y2, m2, d2) = civil_of_days(days2);
    assert(days1 <= days2);
    if days1 < days2 {
        lemma_civil_monotone(days1, days2);
    } else {
        assert(r1 < r2);
        vstd::arithmetic::div_mod::lemma_fundamental_div_mod(r1, 3600);
        vstd::arithmetic::div_mod::lemma_fundamental_div_mod(r2, 3600);
        vstd::arithmetic::div_mod::lemma_fundamental_div_mod(r1 % 3600, 60);
        vstd::arithmetic::div_mod::lemma_fundamental_div_mod(r2 % 3600, 60);
        vstd::arithmetic::div_mod::lemma_fundamental_div_mod(r1, 60);
        vstd::arithmetic::div_mod::lemma_fundamental_div_mod(r2, 60);
    }
    lemma_stamp_order(
        y1,
        m1,
        d1,
        r1 / 3600,
        r1 % 3600 / 60,
        r1 % 60,
        y2,
        m2,
        d2,
        r2 / 3600,
        r2 % 3600 / 60,
        r2 % 60,
    );
}

} // verus!
