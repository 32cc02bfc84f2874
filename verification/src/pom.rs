//! Calendar arithmetic behind the phase-of-the-moon tool.
use vstd::prelude::*;
use crate::parse::{parse_i32, parse_i32_spec, parse_i64, parse_i64_spec, split3, split3_exec};
use crate::number::DOT;

verus! {

/// Gregorian leap-year rule.
pub open spec fn is_leap_year(y: int) -> bool {
    (y % 4 == 0 && y % 100 != 0) || y % 400 == 0
}

/// Quotient of `a` by `b`, rounded toward zero, as Rust's `/` computes it.
pub open spec fn tdiv(a: int, b: int) -> int {
    if a >= 0 { a / b } else { -((-a) / b) }
}

/// Remainder that goes with `tdiv`, as Rust's `%` computes it.
pub open spec fn trem(a: int, b: int) -> int {
    a - b * tdiv(a, b)
}

proof fn lemma_trem_zero(a: int, b: int)
    requires
        b > 0,
    ensures
        (trem(a, b) == 0) == (a % b == 0),
{
    if a >= 0 {
        assert(trem(a, b) == a % b) by (nonlinear_arith)
            requires a >= 0, b > 0, trem(a, b) == a - b * (a / b);
    } else {
        let q = (-a) / b;
        let r = (-a) % b;
        assert(-a == b * q + r && 0 <= r < b) by (nonlinear_arith) requires b > 0, -a > 0, q == (-a) / b, r == (-a) % b;
        assert(trem(a, b) == -r) by (nonlinear_arith) requires trem(a, b) == a - b * (-q), -a == b * q + r;
        if r == 0 {
            assert(a == b * (-q)) by (nonlinear_arith) requires -a == b * q + r, r == 0;
            assert(a % b == 0) by (nonlinear_arith) requires a == b * (-q), b > 0;
        } else {
            assert(a == b * (-q - 1) + (b - r)) by (nonlinear_arith) requires -a == b * q + r;
            assert(a % b == b - r) by (nonlinear_arith) requires a == b * (-q - 1) + (b - r), 0 < b - r < b;
        }
    }
}

/// Whether `y` is a leap year in the Gregorian calendar.
pub fn isleap(y: i32) -> (r: bool)
    ensures
        r == is_leap_year(y as int),
{
    let r4 = y % 4;
    let r100 = y % 100;
    let r400 = y % 400;
    proof {
        lemma_trem_zero(y as int, 4);
        lemma_trem_zero(y as int, 100);
        lemma_trem_zero(y as int, 400);
        assert(r4 == trem(y as int, 4));
        assert(r100 == trem(y as int, 100));
        assert(r400 == trem(y as int, 400));
    }
    (r4 == 0 && r100 != 0) || r400 == 0
}

/// Days in year `y`.
pub open spec fn year_len(y: int) -> int {
    if is_leap_year(y) { 366 } else { 365 }
}

/// Days in month `m` (0 for January) of a leap or common year.
pub open spec fn month_len(m: int, leap: bool) -> int {
    if m == 1 {
        if leap { 29 } else { 28 }
    } else if m == 3 || m == 5 || m == 8 || m == 10 {
        30
    } else {
        31
    }
}

fn month_len_exec(m: usize, leap: bool) -> (d: i32)
    requires
        m < 12,
    ensures
        d == month_len(m as int, leap),
{
    if m == 1 {
        if leap { 29 } else { 28 }
    } else if m == 3 || m == 5 || m == 8 || m == 10 {
        30
    } else {
        31
    }
}

/// The year and the day within it that lie `days` days after the start of
/// `year`, walking whole years forward; the year is taken as a 32-bit value
/// when its length is looked up.
pub open spec fn year_walk(days: int, year: int) -> (int, int)
    decreases days,
{
    if days < year_len((year as i32) as int) {
        (year, days)
    } else {
        year_walk(days - year_len((year as i32) as int), year + 1)
    }
}

/// Days in the year `y`, its length looked up as a 32-bit year.
fn year_days(y: i64) -> (d: i64)
    ensures
        d == year_len((y as i32) as int),
{
    if isleap(#[verifier::truncate] (y as i32)) { 366 } else { 365 }
}

/// A timestamp broken down into year, day of the year and time of day.
pub struct BrokenTime {
    pub year: i64,
    pub yday: i64,
    pub hour: i64,
    pub min: i64,
    pub sec: i64,
}

/// The breakdown of a timestamp, counted from 1970 with Rust's truncating
/// division.
pub open spec fn broken_time_matches(tt: int, r: BrokenTime) -> bool {
    &&& r.sec as int == trem(tt, 60)
    &&& r.min as int == trem(tdiv(tt, 60), 60)
    &&& r.hour as int == trem(tdiv(tt, 3600), 24)
    &&& (r.year as int, r.yday as int) == year_walk(tdiv(tt, 86400), 1970)
}

/// Breaks a count of seconds since 1970 into year, day of the year, hour,
/// minute and second.
pub fn break_down(tt: i64) -> (r: BrokenTime)
    ensures
        broken_time_matches(tt as int, r),
{
    let sec = tt % 60;
    let min = (tt / 60) % 60;
    let hour = (tt / 3600) % 24;
    let mut total_days = tt / 86400;
    let ghost d0 = total_days as int;
    assert(-106751991167301 <= d0 <= 106751991167300) by (nonlinear_arith)
        requires d0 == tdiv(tt as int, 86400), i64::MIN <= tt <= i64::MAX;
    let mut year: i64 = 1970;
    while total_days >= year_days(year)
        invariant
            year >= 1970,
            total_days <= d0,
            (year - 1970) * 365 <= d0 - total_days,
            d0 <= 106751991167300,
            year_walk(d0, 1970) == year_walk(total_days as int, year as int),
        decreases total_days,
    {
        total_days = total_days - year_days(year);
        year = year + 1;
    }
    assert(sec as int == trem(tt as int, 60));
    assert(min as int == trem(tdiv(tt as int, 60), 60));
    assert(hour as int == trem(tdiv(tt as int, 3600), 24));
    assert(d0 == tdiv(tt as int, 86400));
    assert(year_walk(total_days as int, year as int) == (year as int, total_days as int));
    BrokenTime { year, yday: total_days, hour, min, sec }
}

/// A calendar date and time of day as the tool keeps it: years counted from
/// 1900, months from 0.
#[derive(Clone, Copy, Debug, PartialEq, Eq, Structural)]
pub struct TmFields {
    pub year: i32,
    pub mon: i32,
    pub mday: i32,
    pub hour: i64,
    pub min: i64,
    pub sec: i64,
}

/// The month that the tool takes for day `yday` of a year: the first month
/// longer than `yday` days, counting from `m`, or 12 when there is none.
pub open spec fn first_month_from(yday: int, leap: bool, m: int) -> int
    decreases 12 - m,
{
    if m < 12 && yday >= month_len(m, leap) {
        first_month_from(yday, leap, m + 1)
    } else {
        m
    }
}

/// The fields that stand in for the parts of a date or time the user leaves
/// out: those of `now`, with the day of the year standing as the day of the
/// month; nothing when that day, taken as a 32-bit value, cannot be
/// counted from one.
pub open spec fn default_fields(now: int) -> Option<TmFields> {
    let (year, yday) = year_walk(tdiv(now, 86400), 1970);
    if (yday as i32) as int == i32::MAX {
        None
    } else {
        Some(TmFields {
            year: (year - 1900) as i32,
            mon: first_month_from(yday, is_leap_year((year as i32) as int), 0) as i32,
            mday: ((yday as i32) as int + 1) as i32,
            hour: trem(tdiv(now, 3600), 24) as i64,
            min: trem(tdiv(now, 60), 60) as i64,
            sec: trem(now, 60) as i64,
        })
    }
}

proof fn lemma_year_walk_day(days: int, year: int)
    ensures
        days >= 0 ==> 0 <= year_walk(days, year).1 < 366,
        year_walk(days, year).0 >= year,
    decreases days,
{
    if days >= year_len((year as i32) as int) {
        lemma_year_walk_day(days - year_len((year as i32) as int), year + 1);
    }
}

/// The fields for a moment with no date or time given: see `default_fields`.
pub fn current_fields(now: i64) -> (f: Option<TmFields>)
    ensures
        f == default_fields(now as int),
{
    let bt = break_down(now);
    proof {
        lemma_year_walk_day(tdiv(now as int, 86400), 1970);
    }
    let leap = isleap(#[verifier::truncate] (bt.year as i32));
    let mut m: usize = 0;
    while m < 12 && bt.yday >= month_len_exec(m, leap) as i64
        invariant
            m <= 12,
            first_month_from(bt.yday as int, leap, 0) == first_month_from(bt.yday as int, leap, m as int),
        decreases 12 - m,
    {
        m = m + 1;
    }
    let yday = #[verifier::truncate] (bt.yday as i32);
    if yday == i32::MAX {
        return None;
    }
    Some(TmFields {
        year: #[verifier::truncate] ((bt.year - 1900) as i32),
        mon: m as i32,
        mday: yday + 1,
        hour: bt.hour,
        min: bt.min,
        sec: bt.sec,
    })
}

/// The fields after a `yyyy.mm.dd` date is applied: when the date has
/// exactly three parts, each part that reads as an integer replaces its
/// field, and the year and month are shifted to count from 1900 and from 0;
/// nothing when that shift overflows.
pub open spec fn apply_date_spec(f: TmFields, s: Seq<u8>) -> Option<TmFields> {
    match split3(s, DOT) {
        None => Some(f),
        Some(parts) => {
            let y = match parse_i32_spec(parts.0) { Some(v) => v, None => f.year } as int - 1900;
            let m = match parse_i32_spec(parts.1) { Some(v) => v, None => f.mon } as int - 1;
            let d = match parse_i32_spec(parts.2) { Some(v) => v, None => f.mday };
            if y < i32::MIN || m < i32::MIN {
                None
            } else {
                Some(TmFields { year: y as i32, mon: m as i32, mday: d, ..f })
            }
        },
    }
}

/// ASCII colon.
pub const COLON: u8 = 58;

/// The fields after an `hh:mm:ss` time is applied: when the time has exactly
/// three parts, each part that reads as an integer replaces its field.
pub open spec fn apply_time_spec(f: TmFields, s: Seq<u8>) -> TmFields {
    match split3(s, COLON) {
        None => f,
        Some(parts) => TmFields {
            hour: match parse_i64_spec(parts.0) { Some(v) => v, None => f.hour },
            min: match parse_i64_spec(parts.1) { Some(v) => v, None => f.min },
            sec: match parse_i64_spec(parts.2) { Some(v) => v, None => f.sec },
            ..f
        },
    }
}

/// Applies a `yyyy.mm.dd` date to the fields; see `apply_date_spec`.
pub fn apply_date(f: TmFields, s: &[u8]) -> (r: Option<TmFields>)
    ensures
        r == apply_date_spec(f, s@),
{
    match split3_exec(s, DOT) {
        None => Some(f),
        Some((a, b, c)) => {
            let y = match parse_i32(a.as_slice()) { Some(v) => v, None => f.year };
            let m = match parse_i32(b.as_slice()) { Some(v) => v, None => f.mon };
            let d = match parse_i32(c.as_slice()) { Some(v) => v, None => f.mday };
            if y < i32::MIN + 1900 || m == i32::MIN {
                None
            } else {
                Some(TmFields { year: y - 1900, mon: m - 1, mday: d, ..f })
            }
        },
    }
}

/// Applies an `hh:mm:ss` time to the fields; see `apply_time_spec`.
pub fn apply_time(f: TmFields, s: &[u8]) -> (r: TmFields)
    ensures
        r == apply_time_spec(f, s@),
{
    match split3_exec(s, COLON) {
        None => f,
        Some((a, b, c)) => {
            let hour = match parse_i64(a.as_slice()) { Some(v) => v, None => f.hour };
            let min = match parse_i64(b.as_slice()) { Some(v) => v, None => f.min };
            let sec = match parse_i64(c.as_slice()) { Some(v) => v, None => f.sec };
            TmFields { hour, min, sec, ..f }
        },
    }
}

/// Days in the years from `from` up to, not including, `to`.
pub open spec fn years_days(from: int, to: int) -> int
    decreases to - from,
{
    if to <= from {
        0
    } else {
        years_days(from, to - 1) + year_len(to - 1)
    }
}

/// Days in the months before month `m` (0 for January).
pub open spec fn months_days(m: int, leap: bool) -> int
    decreases m,
{
    if m <= 0 {
        0
    } else {
        months_days(m - 1, leap) + month_len(m - 1, leap)
    }
}

/// The value fits in a signed 64-bit integer.
pub open spec fn fits_i64(v: int) -> bool {
    i64::MIN <= v <= i64::MAX
}

/// The count of seconds since 1970 that the fields stand for, or nothing
/// where the tool stops: a year past the 32-bit range, a month outside
/// 0..=12, a day of `i32::MIN`, or a sum that overflows 64 bits.
pub open spec fn fields_timestamp(f: TmFields) -> Option<i64> {
    let target = f.year as int + 1900;
    if target > i32::MAX || !(0 <= f.mon <= 12) || f.mday == i32::MIN {
        None
    } else {
        let days = years_days(1970, target) + months_days(f.mon as int, is_leap_year(target)) + (f.mday - 1);
        let a = days * 86400;
        let b = f.hour * 3600;
        let c = a + b;
        let d = f.min * 60;
        let e = c + d;
        let t = e + f.sec;
        if fits_i64(a) && fits_i64(b) && fits_i64(c) && fits_i64(d) && fits_i64(e) && fits_i64(t) {
            Some(t as i64)
        } else {
            None
        }
    }
}

proof fn lemma_years_days_bounds(from: int, to: int)
    ensures
        0 <= years_days(from, to),
        to >= from ==> years_days(from, to) <= 366 * (to - from),
    decreases to - from,
{
    if to > from {
        lemma_years_days_bounds(from, to - 1);
    }
}

proof fn lemma_months_days_bounds(m: int, leap: bool)
    ensures
        0 <= months_days(m, leap),
        m >= 0 ==> months_days(m, leap) <= 31 * m,
    decreases m,
{
    if m > 0 {
        lemma_months_days_bounds(m - 1, leap);
    }
}

fn mul_checked(a: i64, b: i64) -> (r: Option<i64>)
    ensures
        match r {
            Some(v) => v == a * b && fits_i64(a * b),
            None => !fits_i64(a * b),
        },
{
    a.checked_mul(b)
}

fn add_checked(a: i64, b: i64) -> (r: Option<i64>)
    ensures
        match r {
            Some(v) => v == a + b && fits_i64(a + b),
            None => !fits_i64(a + b),
        },
{
    a.checked_add(b)
}

/// The count of seconds since 1970 that the fields stand for; see
/// `fields_timestamp`.
pub fn timestamp_of(f: TmFields) -> (r: Option<i64>)
    ensures
        r == fields_timestamp(f),
{
    if f.year > i32::MAX - 1900 || f.mon < 0 || f.mon > 12 || f.mday == i32::MIN {
        return None;
    }
    let target_year = f.year + 1900;
    let mut total_days: i64 = 0;
    let mut y: i32 = 1970;
    while y < target_year
        invariant
            1970 <= y,
            y <= target_year || target_year < 1970,
            target_year < 1970 ==> y == 1970,
            total_days == years_days(1970, y as int),
        decreases target_year - y,
    {
        proof {
            lemma_years_days_bounds(1970, y as int);
        }
        total_days = total_days + if isleap(y) { 366 } else { 365 };
        y = y + 1;
    }
    assert(total_days == years_days(1970, target_year as int));
    let leap = isleap(target_year);
    let mut m: usize = 0;
    let mon = f.mon as usize;
    let ghost base = total_days as int;
    proof {
        lemma_years_days_bounds(1970, target_year as int);
    }
    while m < mon
        invariant
            m <= mon <= 12,
            mon == f.mon,
            0 <= base <= 366 * 2147483647,
            total_days == base + months_days(m as int, leap),
        decreases mon - m,
    {
        proof {
            lemma_months_days_bounds(m as int, leap);
        }
        total_days = total_days + month_len_exec(m, leap) as i64;
        m = m + 1;
    }
    proof {
        lemma_months_days_bounds(mon as int, leap);
    }
    total_days = total_days + (f.mday - 1) as i64;
    let a = match mul_checked(total_days, 86400) { Some(v) => v, None => return None };
    let b = match mul_checked(f.hour, 3600) { Some(v) => v, None => return None };
    let c = match add_checked(a, b) { Some(v) => v, None => return None };
    let d = match mul_checked(f.min, 60) { Some(v) => v, None => return None };
    let e = match add_checked(c, d) { Some(v) => v, None => return None };
    let t = match add_checked(e, f.sec) { Some(v) => v, None => return None };
    Some(t)
}

/// The date and time of day that the moon's phase is computed from: years
/// counted from 1900.
#[derive(Clone, Copy, Debug, PartialEq, Eq, Structural)]
pub struct MoonTime {
    pub year: i32,
    pub yday: i32,
    pub hour: i64,
    pub min: i64,
    pub sec: i64,
}

/// The moment `tt` as the phase computation takes it, or nothing where the
/// tool stops on an overflow: a year outside the 32-bit range once 1900 is
/// taken off, a day of the year that cannot be counted from one, or a year
/// too late to be walked to.
pub open spec fn moon_time_spec(tt: int) -> Option<MoonTime> {
    let (year, yday) = year_walk(tdiv(tt, 86400), 1970);
    let ty = (year as i32) as int - 1900;
    let yd = (yday as i32) as int;
    if ty < i32::MIN || yd == i32::MAX || ty > i32::MAX - 1899 {
        None
    } else {
        Some(MoonTime {
            year: ty as i32,
            yday: yd as i32,
            hour: trem(tdiv(tt, 3600), 24) as i64,
            min: trem(tdiv(tt, 60), 60) as i64,
            sec: trem(tt, 60) as i64,
        })
    }
}

/// The moment `tt` as the phase computation takes it; see `moon_time_spec`.
pub fn moon_time(tt: i64) -> (r: Option<MoonTime>)
    ensures
        r == moon_time_spec(tt as int),
{
    let bt = break_down(tt);
    let y32 = #[verifier::truncate] (bt.year as i32);
    let yd = #[verifier::truncate] (bt.yday as i32);
    if y32 < i32::MIN + 1900 || yd == i32::MAX || y32 - 1900 > i32::MAX - 1899 {
        return None;
    }
    Some(MoonTime { year: y32 - 1900, yday: yd, hour: bt.hour, min: bt.min, sec: bt.sec })
}

/// The moment whose phase the tool reports: `now`, or, when a date or a time
/// is given, the moment the fields of `now` stand for once they are applied.
pub open spec fn pom_time_spec(now: int, odate: Option<Seq<u8>>, otime: Option<Seq<u8>>) -> Option<MoonTime> {
    let tt = if odate is Some || otime is Some {
        let f1 = match default_fields(now) {
            None => None,
            Some(f0) => match odate {
                Some(s) => apply_date_spec(f0, s),
                None => Some(f0),
            },
        };
        match f1 {
            None => None,
            Some(f1) => {
                let f2 = match otime {
                    Some(s) => apply_time_spec(f1, s),
                    None => f1,
                };
                fields_timestamp(f2)
            },
        }
    } else {
        Some(now as i64)
    };
    match tt {
        Some(t) => moon_time_spec(t as int),
        None => None,
    }
}

/// The view of an optional byte string.
pub open spec fn opt_bytes(o: Option<&[u8]>) -> Option<Seq<u8>> {
    match o {
        Some(s) => Some(s@),
        None => None,
    }
}

/// The moment whose phase the tool reports, from the current time and the
/// optional `-d yyyy.mm.dd` and `-t hh:mm:ss` arguments.
pub fn pom_time(now: i64, odate: Option<&[u8]>, otime: Option<&[u8]>) -> (r: Option<MoonTime>)
    ensures
        r == pom_time_spec(now as int, opt_bytes(odate), opt_bytes(otime)),
{
    let tt = if odate.is_some() || otime.is_some() {
        let f1 = match current_fields(now) {
            None => None,
            Some(f0) => match odate {
                Some(s) => apply_date(f0, s),
                None => Some(f0),
            },
        };
        match f1 {
            None => None,
            Some(f1) => {
                let f2 = match otime {
                    Some(s) => apply_time(f1, s),
                    None => f1,
                };
                timestamp_of(f2)
            },
        }
    } else {
        Some(now)
    };
    match tt {
        Some(t) => moon_time(t),
        None => None,
    }
}

proof fn lemma_years_days_front(a: int, b: int)
    requires
        a < b,
    ensures
        years_days(a, b) == year_len(a) + years_days(a + 1, b),
    decreases b - a,
{
    if b - 1 > a {
        lemma_years_days_front(a, b - 1);
        assert(years_days(a + 1, b) == years_days(a + 1, b - 1) + year_len(b - 1));
    } else {
        assert(years_days(a, a) == 0);
        assert(years_days(a + 1, b) == 0);
    }
}

proof fn lemma_year_walk_years(y0: int, y: int, r: int)
    requires
        i32::MIN <= y0 <= y <= i32::MAX,
        0 <= r < year_len(y),
    ensures
        year_walk(years_days(y0, y) + r, y0) == (y, r),
    decreases y - y0,
{
    assert((y0 as i32) as int == y0);
    if y0 < y {
        lemma_years_days_front(y0, y);
        lemma_years_days_bounds(y0 + 1, y);
        lemma_year_walk_years(y0 + 1, y, r);
    }
}

proof fn lemma_months_days_year(leap: bool)
    ensures
        months_days(12, leap) == if leap { 366int } else { 365int },
{
    reveal_with_fuel(months_days, 13);
}

proof fn lemma_months_days_mono(m: int, k: int, leap: bool)
    requires
        0 <= m <= k,
    ensures
        months_days(m, leap) <= months_days(k, leap),
    decreases k - m,
{
    if m < k {
        lemma_months_days_mono(m, k - 1, leap);
    }
}

/// A valid date and time of day from 1970 on survives the trip to a
/// timestamp and back: the timestamp breaks down into the same year, the day
/// of the year that the month and day make, and the same time of day.
pub proof fn lemma_date_round_trip(year: int, mon: int, mday: int, hour: int, min: int, sec: int)
    requires
        1970 <= year <= i32::MAX,
        0 <= mon < 12,
        1 <= mday <= month_len(mon, is_leap_year(year)),
        0 <= hour < 24,
        0 <= min < 60,
        0 <= sec < 60,
    ensures
        fields_timestamp(TmFields {
            year: (year - 1900) as i32,
            mon: mon as i32,
            mday: mday as i32,
            hour: hour as i64,
            min: min as i64,
            sec: sec as i64,
        }) matches Some(t) && {
            let tt = t as int;
            &&& year_walk(tdiv(tt, 86400), 1970)
                == (year, months_days(mon, is_leap_year(year)) + mday - 1)
            &&& trem(tdiv(tt, 3600), 24) == hour
            &&& trem(tdiv(tt, 60), 60) == min
            &&& trem(tt, 60) == sec
        },
{
    let leap = is_leap_year(year);
    let f = TmFields {
        year: (year - 1900) as i32,
        mon: mon as i32,
        mday: mday as i32,
        hour: hour as i64,
        min: min as i64,
        sec: sec as i64,
    };
    assert(f.year as int + 1900 == year);
    let yday = months_days(mon, leap) + mday - 1;
    lemma_months_days_mono(mon + 1, 12, leap);
    lemma_months_days_year(leap);
    lemma_months_days_bounds(mon, leap);
    assert(0 <= yday < year_len(year));
    lemma_years_days_bounds(1970, year);
    let days = years_days(1970, year) + yday;
    lemma_year_walk_years(1970, year, yday);
    assert(0 <= days <= 366 * 2147483647 + 366);
    let tod = hour * 3600 + min * 60 + sec;
    assert(0 <= tod < 86400) by (nonlinear_arith)
        requires tod == hour * 3600 + min * 60 + sec, 0 <= hour < 24, 0 <= min < 60, 0 <= sec < 60;
    let tt = days * 86400 + tod;
    assert(0 <= days * 86400 <= (366 * 2147483647 + 366) * 86400) by (nonlinear_arith)
        requires 0 <= days <= 366 * 2147483647 + 366;
    assert(fields_timestamp(f) == Some(tt as i64));
    vstd::arithmetic::div_mod::lemma_fundamental_div_mod_converse(tt, 86400, days, tod);
    vstd::arithmetic::div_mod::lemma_fundamental_div_mod_converse(tt, 60, days * 1440 + hour * 60 + min, sec);
    vstd::arithmetic::div_mod::lemma_fundamental_div_mod_converse(tt, 3600, days * 24 + hour, min * 60 + sec);
    vstd::arithmetic::div_mod::lemma_fundamental_div_mod_converse(days * 1440 + hour * 60 + min, 60, days * 24 + hour, min);
    vstd::arithmetic::div_mod::lemma_fundamental_div_mod_converse(days * 24 + hour, 24, days, hour);
}

/// How many of the `n` years from `y` on are leap years.
pub open spec fn leap_count(y: int, n: nat) -> int
    decreases n,
{
    if n == 0 {
        0
    } else {
        leap_count(y, (n - 1) as nat) + (if is_leap_year(y + n - 1) { 1int } else { 0int })
    }
}

/// How many of the `n` integers from `y` on are multiples of `m`.
spec fn multiples(y: int, n: nat, m: int) -> int
    decreases n,
{
    if n == 0 {
        0
    } else {
        multiples(y, (n - 1) as nat, m) + (if (y + n - 1) % m == 0 { 1int } else { 0int })
    }
}

/// Adding `c` times `m` adds `c` to the quotient by `m` and keeps the remainder.
proof fn lemma_shift_by_multiple(a: int, m: int, c: int)
    requires
        m > 0,
    ensures
        (a + m * c) / m == a / m + c,
        (a + m * c) % m == a % m,
{
    let q = a / m;
    let r = a % m;
    vstd::arithmetic::div_mod::lemma_fundamental_div_mod(a, m);
    vstd::arithmetic::div_mod::lemma_mod_bound(a, m);
    assert(a + m * c == (q + c) * m + r) by (nonlinear_arith)
        requires a == m * q + r;
    vstd::arithmetic::div_mod::lemma_fundamental_div_mod_converse(a + m * c, m, q + c, r);
}

/// The quotient by `m` goes up by one exactly at the multiples of `m`.
proof fn lemma_quotient_step(a: int, m: int)
    requires
        m > 0,
    ensures
        (a + 1) / m - a / m == (if (a + 1) % m == 0 { 1int } else { 0int }),
{
    let q = a / m;
    let r = a % m;
    vstd::arithmetic::div_mod::lemma_fundamental_div_mod(a, m);
    vstd::arithmetic::div_mod::lemma_mod_bound(a, m);
    assert(a == q * m + r) by (nonlinear_arith)
        requires a == m * q + r;
    if r == m - 1 {
        assert(a + 1 == (q + 1) * m + 0) by (nonlinear_arith)
            requires a == q * m + r, r == m - 1;
        vstd::arithmetic::div_mod::lemma_fundamental_div_mod_converse(a + 1, m, q + 1, 0);
    } else {
        vstd::arithmetic::div_mod::lemma_fundamental_div_mod_converse(a + 1, m, q, r + 1);
    }
}

/// The multiples of `m` among `n` integers, counted by quotients.
proof fn lemma_multiples(y: int, n: nat, m: int)
    requires
        m > 0,
    ensures
        multiples(y, n, m) == (y + n - 1) / m - (y - 1) / m,
    decreases n,
{
    if n > 0 {
        lemma_multiples(y, (n - 1) as nat, m);
        lemma_quotient_step(y + n - 2, m);
    }
}

/// A multiple of `m * c` is a multiple of `m`.
proof fn lemma_multiple_of_multiple(k: int, m: int, c: int)
    requires
        m > 0,
        c > 0,
        k % (m * c) == 0,
    ensures
        k % m == 0,
{
    assert(m * c > 0) by (nonlinear_arith) requires m > 0, c > 0;
    vstd::arithmetic::div_mod::lemma_fundamental_div_mod(k, m * c);
    let q = k / (m * c);
    assert(k == (q * c) * m + 0) by (nonlinear_arith)
        requires k == (m * c) * q + 0;
    vstd::arithmetic::div_mod::lemma_fundamental_div_mod_converse(k, m, q * c, 0);
}

/// The leap years among `n` years: the multiples of four, less those of one
/// hundred, plus those of four hundred.
proof fn lemma_leap_count_by_multiples(y: int, n: nat)
    ensures
        leap_count(y, n) == multiples(y, n, 4) - multiples(y, n, 100) + multiples(y, n, 400),
    decreases n,
{
    if n > 0 {
        lemma_leap_count_by_multiples(y, (n - 1) as nat);
        let k = y + n - 1;
        if k % 400 == 0 {
            lemma_multiple_of_multiple(k, 100, 4);
        }
        if k % 100 == 0 {
            lemma_multiple_of_multiple(k, 4, 25);
        }
    }
}

/// The leap-year rule repeats every four hundred years, and each four hundred
/// consecutive years hold 97 leap years.
pub proof fn lemma_leap_cycle(y: int)
    ensures
        is_leap_year(y + 400) == is_leap_year(y),
        leap_count(y, 400) == 97,
{
    lemma_shift_by_multiple(y, 4, 100);
    lemma_shift_by_multiple(y, 100, 4);
    lemma_shift_by_multiple(y, 400, 1);
    lemma_leap_count_by_multiples(y, 400);
    lemma_multiples(y, 400, 4);
    lemma_multiples(y, 400, 100);
    lemma_multiples(y, 400, 400);
    lemma_shift_by_multiple(y - 1, 4, 100);
    lemma_shift_by_multiple(y - 1, 100, 4);
    lemma_shift_by_multiple(y - 1, 400, 1);
}

/// The year the phase computation counts from, less 1900.
pub const EPOCH: i32 = 85;

/// The whole days in the years from the epoch up to the year that is `year`
/// after 1900, which the phase computation adds to the day of that year.
pub fn epoch_days(year: i32) -> (d: i64)
    requires
        year <= i32::MAX - 1899,
    ensures
        d == years_days(1900 + EPOCH, 1900 + year),
{
    let mut d: i64 = 0;
    let mut cnt: i32 = EPOCH;
    if year <= EPOCH {
        return 0;
    }
    while cnt < year
        invariant
            EPOCH <= cnt <= year,
            year <= i32::MAX - 1899,
            d == years_days(1900 + EPOCH, 1900 + cnt),
        decreases year - cnt,
    {
        proof {
            lemma_years_days_bounds(1900 + EPOCH, 1900 + cnt);
        }
        let y = 1900 + cnt;
        d = d + if isleap(y) { 366 } else { 365 };
        cnt = cnt + 1;
    }
    d
}

/// Months have their calendar lengths: the days before each month of a
/// common year are 0, 31, 59, 90, 120, 151, 181, 212, 243, 273, 304, 334 and
/// 365 in all, and a leap year has one day more from March on.
pub proof fn lemma_months_days_calendar(m: int, leap: bool)
    requires
        0 <= m <= 12,
    ensures
        months_days(m, leap) == seq![0int, 31, 59, 90, 120, 151, 181, 212, 243, 273, 304, 334, 365][m]
            + (if leap && m >= 2 { 1int } else { 0int }),
{
    reveal_with_fuel(months_days, 13);
}

} // verus!
