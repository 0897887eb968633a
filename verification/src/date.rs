//! Calendar dates: day numbers, the calendar they count, and the two ways the
//! library writes and reads a date.
use vstd::prelude::*;
use crate::text::{
    Sep, chars_of, decimal, lemma_padded_reads_back, lemma_split_three, parse_u32,
    parse_u32_spec, push_decimal, push_padded, split, split_chars, string_of, trim, trim_chars,
    zero_padded,
};

verus! {

/// A calendar date: year, month (1 to 12), day of the month.
#[derive(Clone, Copy, PartialEq, Eq, Structural, Debug)]
pub struct Date(pub i32, pub u32, pub u32);

/// The year that starts on the first of March and holds this date.
pub open spec fn march_year(y: int, m: int) -> int {
    if m <= 2 { y - 1 } else { y }
}

/// Days from 0000-03-01 to the first of March of the given year (proleptic Gregorian).
pub open spec fn days_to_march_year(y: int) -> int {
    365 * y + y / 4 - y / 100 + y / 400
}

/// Days from the first of March to the first day of the month counted from March (0 = March).
pub open spec fn days_to_march_month(mp: int) -> int {
    (153 * mp + 2) / 5
}

/// The day number of a date: days since 1970-01-01, negative before it.
pub open spec fn day_number(d: Date) -> int {
    days_to_march_year(march_year(d.0 as int, d.1 as int))
        + days_to_march_month((d.1 + 9) % 12) + d.2 - 1 - 719468
}

impl Date {
    /// Days since 1970-01-01.
    pub fn days(self) -> (r: i64)
        ensures r == day_number(self),
    {
        let Date(y, m, d) = self;
        let y: i64 = if m <= 2 { y as i64 - 1 } else { y as i64 };
        let era: i64 = (if y >= 0 { y } else { y - 399 }) / 400;
        let yoe: i64 = y - era * 400;
        proof {
            lemma_floor_400(y as int, era as int);
            lemma_era_split(y as int, era as int, yoe as int);
        }
        let doy: i64 = (153 * ((m as i64 + 9) % 12) + 2) / 5 + d as i64 - 1;
        let doe: i64 = yoe * 365 + yoe / 4 - yoe / 100 + doy;
        era * 146097 + doe - 719468
    }
}

/// What the truncating division of the executable code gives, for a floor by 400.
proof fn lemma_floor_400(y: int, era: int)
    requires
        -10_000_000_000 <= y <= 10_000_000_000,
        y >= 0 ==> era == y / 400,
        y < 0 ==> era == -((399 - y) / 400),
    ensures
        era == y / 400,
{
}

/// A year split into 400-year eras.
proof fn lemma_era_split(y: int, era: int, yoe: int)
    requires
        y == 400 * era + yoe,
        0 <= yoe < 400,
    ensures
        days_to_march_year(y) == era * 146097 + 365 * yoe + yoe / 4 - yoe / 100,
        era == y / 400,
{
    assert(y / 4 == 100 * era + yoe / 4);
    assert(y / 100 == 4 * era + yoe / 100);
    assert(y / 400 == era);
}


/// True in a leap year of the proleptic Gregorian calendar.
pub open spec fn is_leap(y: int) -> bool {
    y % 4 == 0 && (y % 100 != 0 || y % 400 == 0)
}

/// Days in the given month of the given year.
pub open spec fn days_in_month(y: int, m: int) -> int {
    if m == 2 {
        if is_leap(y) { 29 } else { 28 }
    } else if m == 4 || m == 6 || m == 9 || m == 11 {
        30
    } else {
        31
    }
}

/// A date that exists on the calendar.
pub open spec fn is_valid(d: Date) -> bool {
    1 <= d.1 <= 12 && 1 <= d.2 <= days_in_month(d.0 as int, d.1 as int)
}

/// The day numbers of the dates whose year fits an `i32`: from the first day of year
/// `i32::MIN` to the last day of year `i32::MAX`.
pub open spec fn day_in_range(n: int) -> bool {
    day_number(Date(i32::MIN, 1, 1)) <= n <= day_number(Date(i32::MAX, 12, 31))
}

/// Where the months counted from March start, and how far a month reaches into its year.
proof fn lemma_month_span(mp: int, m: int, y: int)
    requires
        0 <= mp <= 11,
        1 <= m <= 12,
        (m + 9) % 12 == mp,
    ensures
        mp <= 9 ==> days_to_march_month(mp) + days_in_month(y, m) <= 306,
        mp == 10 ==> days_to_march_month(mp) == 306 && m == 1,
        mp == 11 ==> days_to_march_month(mp) == 337 && m == 2,
        days_to_march_month(mp) >= 0,
{
    if mp == 0 { assert(m == 3); }
    else if mp == 1 { assert(m == 4); }
    else if mp == 2 { assert(m == 5); }
    else if mp == 3 { assert(m == 6); }
    else if mp == 4 { assert(m == 7); }
    else if mp == 5 { assert(m == 8); }
    else if mp == 6 { assert(m == 9); }
    else if mp == 7 { assert(m == 10); }
    else if mp == 8 { assert(m == 11); }
    else if mp == 9 { assert(m == 12); }
    else if mp == 10 { assert(m == 1); }
    else { assert(m == 2); }
}

/// A year that starts in March is 365 or 366 days long.
proof fn lemma_march_year_at_least(y: int)
    ensures
        days_to_march_year(y + 1) - days_to_march_year(y) == 365 + (if is_leap(y + 1) { 1int } else { 0 }),
{
    let era = y / 400;
    let yoe = y % 400;
    assert(400 * era + yoe == y);
    lemma_march_year_length(era, yoe);
}

/// The year of the date a day count in range falls on fits an `i32`.
proof fn lemma_year_fits(z: int, yp: int, mp: int, d: int, m: int, y: int)
    requires
        days_to_march_year(yp) + days_to_march_month(mp) + d - 1 == z,
        0 <= mp <= 11,
        1 <= m <= 12,
        (m + 9) % 12 == mp,
        1 <= d <= days_in_month(y, m),
        y == yp + (if m <= 2 { 1int } else { 0 }),
        day_in_range(z - 719468),
    ensures
        i32::MIN <= y <= i32::MAX,
{
    let hi = i32::MAX as int;
    let lo = i32::MIN as int;
    lemma_month_span(mp, m, y);
    lemma_march_year_at_least(hi);
    lemma_march_year_at_least(yp);
    assert(day_number(Date(i32::MAX, 12, 31)) == days_to_march_year(hi) + 305 - 719468);
    assert(day_number(Date(i32::MIN, 1, 1)) == days_to_march_year(lo - 1) + 306 - 719468);
    if yp > hi {
        lemma_march_years_increase(hi, yp);
    }
    if yp < lo - 1 {
        lemma_march_years_increase(yp, lo - 1);
    }
}

proof fn lemma_year_of_era_in_century(doe: int, c: int)
    requires
        0 <= c <= 3,
        36524 * c <= doe < 36524 * (c + 1),
    ensures ({
        let yoe = (doe - doe / 1460 + doe / 36524 - doe / 146096) / 365;
        &&& 0 <= yoe <= 399
        &&& 365 * yoe + yoe / 4 - yoe / 100 <= doe
        &&& doe < 365 * (yoe + 1) + (yoe + 1) / 4 - (yoe + 1) / 100
    }),
{
    assert(doe / 36524 == c);
    assert(doe / 146096 == 0);
    let e = doe - 36524 * c;
    let q = e / 1461;
    assert(0 <= q <= 24);
    let r = e - 1461 * q;
    let t = (24 * c + q + r) / 1460;
    assert(doe == 1460 * (25 * c + q) + 24 * c + q + r);
    assert(doe / 1460 == 25 * c + q + t);
    assert(0 <= t <= 1);
    assert(r == 1460 ==> t == 1);
    assert(doe - doe / 1460 + doe / 36524 - doe / 146096 == 365 * (100 * c + 4 * q) + r - t);
    assert((r - t) / 365 == (if r == 1460 { 3int } else { r / 365 }));
    let yy = 100 * c + 4 * q + (if r == 1460 { 3int } else { r / 365 });
    assert((doe - doe / 1460 + doe / 36524 - doe / 146096) / 365 == yy);
    assert(yy / 4 == 25 * c + q);
    assert(yy / 100 == c);
}

proof fn lemma_year_of_era(doe: int)
    requires 0 <= doe <= 146096,
    ensures ({
        let yoe = (doe - doe / 1460 + doe / 36524 - doe / 146096) / 365;
        &&& 0 <= yoe <= 399
        &&& 365 * yoe + yoe / 4 - yoe / 100 <= doe
        &&& doe < 365 * (yoe + 1) + (yoe + 1) / 4 - (yoe + 1) / 100 + (if yoe == 399 { 1int } else { 0 })
    }),
{
    if doe == 146096 {
    } else {
        lemma_year_of_era_in_century(doe, doe / 36524);
    }
}

proof fn lemma_month_of_year(doy: int)
    requires 0 <= doy <= 365,
    ensures ({
        let mp = (5 * doy + 2) / 153;
        &&& 0 <= mp <= 11
        &&& days_to_march_month(mp) <= doy < days_to_march_month(mp + 1)
    }),
{
}

/// Length of the year that starts on the first of March of `y`: its February is that of `y + 1`.
pub(crate) proof fn lemma_march_year_length(era: int, yoe: int)
    requires 0 <= yoe <= 399,
    ensures
        days_to_march_year(400 * era + yoe + 1) - days_to_march_year(400 * era + yoe)
            == 365 + (if is_leap(400 * era + yoe + 1) { 1int } else { 0 }),
        days_to_march_year(400 * era + yoe) == era * 146097 + 365 * yoe + yoe / 4 - yoe / 100,
        days_to_march_year(400 * era + yoe + 1) == era * 146097 + 365 * (yoe + 1) + (yoe + 1) / 4
            - (yoe + 1) / 100 + (if yoe == 399 { 1int } else { 0 }),
{
    lemma_era_split(400 * era + yoe, era, yoe);
    if yoe == 399 {
        lemma_era_split(400 * era + yoe + 1, era + 1, 0);
    } else {
        lemma_era_split(400 * era + yoe + 1, era, yoe + 1);
    }
    let y1 = 400 * era + yoe + 1;
    assert(y1 % 4 == (yoe + 1) % 4);
    assert(y1 % 100 == (yoe + 1) % 100);
    assert(y1 % 400 == (yoe + 1) % 400);
}

/// The calendar pieces of a day count from 0000-03-01, as the inverse of `day_number` computes them.
proof fn lemma_civil_from_days(z: int, era: int, doe: int, yoe: int, doy: int, mp: int)
    requires
        era == z / 146097,
        doe == z - era * 146097,
        yoe == (doe - doe / 1460 + doe / 36524 - doe / 146096) / 365,
        doy == doe - (365 * yoe + yoe / 4 - yoe / 100),
        mp == (5 * doy + 2) / 153,
    ensures ({
        let d = doy - days_to_march_month(mp) + 1;
        let m = if mp < 10 { mp + 3 } else { mp - 9 };
        let y = yoe + era * 400 + if m <= 2 { 1int } else { 0 };
        &&& 0 <= yoe <= 399
        &&& 0 <= doy <= 365
        &&& 0 <= mp <= 11
        &&& 1 <= m <= 12
        &&& 1 <= d <= days_in_month(y, m)
        &&& (m + 9) % 12 == mp
        &&& march_year(y, m) == 400 * era + yoe
        &&& days_to_march_year(400 * era + yoe) + days_to_march_month(mp) + d - 1 == z
    }),
{
    lemma_year_of_era(doe);
    lemma_march_year_length(era, yoe);
    lemma_month_of_year(doy);
    let d = doy - days_to_march_month(mp) + 1;
    let m = if mp < 10 { mp + 3 } else { mp - 9 };
    let y = yoe + era * 400 + if m <= 2 { 1int } else { 0 };
    if mp == 11 {
        assert(y == 400 * era + yoe + 1);
        assert(days_to_march_month(11) == 337);
    } else {
        assert(days_to_march_month(mp + 1) - days_to_march_month(mp) == days_in_month(y, m));
    }
}

/// The date with day number `n` (there is exactly one among valid dates when `n` is in
/// range: see `lemma_date_at`).
pub open spec fn date_at(n: int) -> Date {
    choose|d: Date| is_valid(d) && day_number(d) == n
}

/// Every day number in range is the day number of a valid date, and `date_at` is that date.
pub proof fn lemma_date_at(n: int)
    requires day_in_range(n),
    ensures
        is_valid(date_at(n)),
        day_number(date_at(n)) == n,
{
    let z = n + 719468;
    let era = z / 146097;
    let doe = z - era * 146097;
    let yoe = (doe - doe / 1460 + doe / 36524 - doe / 146096) / 365;
    let doy = doe - (365 * yoe + yoe / 4 - yoe / 100);
    let mp = (5 * doy + 2) / 153;
    lemma_civil_from_days(z, era, doe, yoe, doy, mp);
    let d = doy - days_to_march_month(mp) + 1;
    let m = if mp < 10 { mp + 3 } else { mp - 9 };
    let y = yoe + era * 400 + if m <= 2 { 1int } else { 0 };
    lemma_year_fits(z, 400 * era + yoe, mp, d, m, y);
    let w = Date(y as i32, m as u32, d as u32);
    assert(w.0 as int == y && w.1 as int == m && w.2 as int == d);
    assert(is_valid(w) && day_number(w) == n);
}

impl Date {
    /// The date of the given day number (days since 1970-01-01).
    #[verifier::spinoff_prover]
    #[verifier::rlimit(40)]
    pub fn from_days(days: i64) -> (r: Date)
        requires day_in_range(days as int),
        ensures
            is_valid(r),
            day_number(r) == days,
            r == date_at(days as int),
    {
        let z: i64 = days + 719468;
        let era: i64 = (if z >= 0 { z } else { z - 146096 }) / 146097;
        let doe: i64 = z - era * 146097;
        proof {
            assert(era == z / 146097);
            assert(0 <= doe <= 146096);
        }
        let yoe: i64 = (doe - doe / 1460 + doe / 36524 - doe / 146096) / 365;
        let doy: i64 = doe - (365 * yoe + yoe / 4 - yoe / 100);
        let mp: i64 = (5 * doy + 2) / 153;
        proof {
            lemma_civil_from_days(z as int, era as int, doe as int, yoe as int, doy as int, mp as int);
            let dd = doy - days_to_march_month(mp as int) + 1;
            let mm = if mp < 10 { mp + 3 } else { mp - 9 };
            let yy = yoe + era * 400 + if mm <= 2 { 1int } else { 0 };
            lemma_year_fits(z as int, 400 * era + yoe, mp as int, dd, mm as int, yy);
        }
        let d: u32 = (doy - (153 * mp + 2) / 5 + 1) as u32;
        let m: u32 = (if mp < 10 { mp + 3 } else { mp - 9 }) as u32;
        let y: i32 = (yoe + era * 400 + if m <= 2 { 1 } else { 0 }) as i32;
        let r = Date(y, m, d);
        proof {
            date_at_is(r, days as int);
        }
        r
    }
}

/// The first of March comes later each year.
proof fn lemma_march_years_increase(a: int, b: int)
    requires a < b,
    ensures days_to_march_year(a + 1) <= days_to_march_year(b),
{
    assert((b / 4 - (a + 1) / 4) * 4 >= (b - a - 1) - 3);
    assert((b / 100 - (a + 1) / 100) * 100 <= (b - a - 1) + 99);
    assert(b / 400 >= (a + 1) / 400);
}

/// The offset of a valid date inside its year that starts in March, and that year's length.
proof fn lemma_day_of_march_year(d: Date)
    requires is_valid(d),
    ensures ({
        let yp = march_year(d.0 as int, d.1 as int);
        let doy = days_to_march_month((d.1 + 9) % 12) + d.2 - 1;
        &&& 0 <= doy
        &&& days_to_march_year(yp) + doy < days_to_march_year(yp + 1)
        &&& days_to_march_month((d.1 + 9) % 12) <= doy < days_to_march_month((d.1 + 9) % 12 + 1)
    }),
{
    let yp = march_year(d.0 as int, d.1 as int);
    let era = yp / 400;
    let yoe = yp % 400;
    lemma_march_year_length(era, yoe);
    assert(400 * era + yoe == yp);
    if d.1 <= 2 {
        assert(yp + 1 == d.0);
    }
}

/// Two valid dates with the same day number are the same date.
pub proof fn lemma_day_number_injective(a: Date, b: Date)
    requires
        is_valid(a),
        is_valid(b),
        day_number(a) == day_number(b),
    ensures
        a == b,
{
    lemma_day_of_march_year(a);
    lemma_day_of_march_year(b);
    let ya = march_year(a.0 as int, a.1 as int);
    let yb = march_year(b.0 as int, b.1 as int);
    if ya < yb {
        lemma_march_years_increase(ya, yb);
    } else if yb < ya {
        lemma_march_years_increase(yb, ya);
    }
    assert(ya == yb);
    let ma = (a.1 + 9) % 12;
    let mb = (b.1 + 9) % 12;
    if ma < mb {
        assert(days_to_march_month(ma + 1) <= days_to_march_month(mb));
    } else if mb < ma {
        assert(days_to_march_month(mb + 1) <= days_to_march_month(ma));
    }
    assert(ma == mb);
    assert(a.1 == b.1);
}

/// The calendar day after a valid date.
pub open spec fn next_day(d: Date) -> Date {
    if (d.2 as int) < days_in_month(d.0 as int, d.1 as int) {
        Date(d.0, d.1, (d.2 + 1) as u32)
    } else if d.1 < 12 {
        Date(d.0, (d.1 + 1) as u32, 1)
    } else {
        Date((d.0 + 1) as i32, 1, 1)
    }
}

/// Day numbers count calendar days: the day after a valid date has the next day number,
/// and 1970-01-01 is day zero.
pub proof fn lemma_day_number_counts_days(d: Date)
    requires
        is_valid(d),
        d.0 < i32::MAX,
    ensures
        is_valid(next_day(d)),
        day_number(next_day(d)) == day_number(d) + 1,
        day_number(Date(1970, 1, 1)) == 0,
{
    lemma_day_of_march_year(d);
    let yp = march_year(d.0 as int, d.1 as int);
    let era = yp / 400;
    let yoe = yp % 400;
    lemma_march_year_length(era, yoe);
    assert(400 * era + yoe == yp);
    if d.1 == 2 && (d.2 as int) == days_in_month(d.0 as int, 2) {
        assert(yp + 1 == d.0);
    }
}

/// Monday is 0, Sunday 6.
pub open spec fn weekday_of(d: Date) -> int {
    (day_number(d) + 3) % 7
}

/// The year as `{:04}` writes it: at least four characters, a minus sign counting as one.
pub open spec fn year_iso(y: int) -> Seq<char> {
    if y >= 0 {
        zero_padded(decimal(y as nat), 4)
    } else {
        seq!['-'] + zero_padded(decimal((-y) as nat), 3)
    }
}

/// The year as `{}` writes it.
pub open spec fn year_plain(y: int) -> Seq<char> {
    if y >= 0 {
        decimal(y as nat)
    } else {
        seq!['-'] + decimal((-y) as nat)
    }
}

/// `YYYY-MM-DD`.
pub open spec fn iso_text(d: Date) -> Seq<char> {
    year_iso(d.0 as int) + seq!['-'] + zero_padded(decimal(d.1 as nat), 2) + seq!['-']
        + zero_padded(decimal(d.2 as nat), 2)
}

/// `DD/MM/YYYY`, the year unpadded.
pub open spec fn fr_text(d: Date) -> Seq<char> {
    zero_padded(decimal(d.2 as nat), 2) + seq!['/'] + zero_padded(decimal(d.1 as nat), 2) + seq!['/']
        + year_plain(d.0 as int)
}

/// Every piece of `s` between date separators, trimmed, read as a number; `None` when one
/// of them is not a number.
pub open spec fn date_fields(s: Seq<char>) -> Option<Seq<u32>> {
    fields_of(split(Sep::DateField, s))
}

/// The pieces, trimmed, read as numbers; `None` when one of them is not a number.
pub open spec fn fields_of(ps: Seq<Seq<char>>) -> Option<Seq<u32>> {
    if forall|i: int| 0 <= i < ps.len() ==> (#[trigger] parse_u32_spec(trim(ps[i]))) is Some {
        Some(ps.map_values(|p: Seq<char>| parse_u32_spec(trim(p))->0))
    } else {
        None
    }
}

/// The date that the fields name before its month and day are checked: year first when the
/// first of three numbers exceeds 31, else day first with a two-digit year in the 2000s, and
/// day and month alone in the current year.
pub open spec fn date_of_fields(f: Seq<u32>, today: Date) -> Option<Date> {
    if f.len() == 3 && f[0] > 31 {
        Some(Date(f[0] as i32, f[1], f[2]))
    } else if f.len() == 3 {
        Some(Date((if f[2] < 100 { 2000 + f[2] } else { f[2] as int }) as i32, f[1], f[0]))
    } else if f.len() == 2 {
        Some(Date(today.0, f[1], f[0]))
    } else {
        None
    }
}

/// What `Date::parse` accepts: YYYY-MM-DD, DD/MM/YYYY, DD/MM/YY or DD/MM, any of `/`, `-`, `.`
/// between the fields, a month in 1 to 12 and a day in 1 to 31.
pub open spec fn parse_date(s: Seq<char>, today: Date) -> Option<Date> {
    match date_fields(s) {
        None => None,
        Some(f) => match date_of_fields(f, today) {
            Some(d) => if 1 <= d.1 <= 12 && 1 <= d.2 <= 31 { Some(d) } else { None },
            None => None,
        },
    }
}

impl Date {
    /// Monday is 0, Sunday 6.
    pub fn weekday(self) -> (r: u32)
        ensures r == weekday_of(self),
    {
        let x = self.days() + 3;
        let r = x % 7;
        if r < 0 { (r + 7) as u32 } else { r as u32 }
    }

    /// The date `n` days later (earlier when `n` is negative).
    pub fn plus(self, n: i64) -> (r: Date)
        requires day_in_range(day_number(self) + n),
        ensures
            is_valid(r),
            day_number(r) == day_number(self) + n,
            r == date_at(day_number(self) + n),
    {
        Date::from_days(self.days() + n)
    }

    /// `YYYY-MM-DD`, the form the task file stores.
    pub fn iso(self) -> (r: String)
        ensures r@ == iso_text(self),
    {
        let mut v: Vec<char> = Vec::new();
        if self.0 >= 0 {
            push_padded(&mut v, self.0 as u64, 4);
        } else {
            v.push('-');
            push_padded(&mut v, (-(self.0 as i64)) as u64, 3);
        }
        v.push('-');
        push_padded(&mut v, self.1 as u64, 2);
        v.push('-');
        push_padded(&mut v, self.2 as u64, 2);
        string_of(&v)
    }

    /// `DD/MM/YYYY`, the form shown and typed.
    pub fn fr(self) -> (r: String)
        ensures r@ == fr_text(self),
    {
        let mut v: Vec<char> = Vec::new();
        push_padded(&mut v, self.2 as u64, 2);
        v.push('/');
        push_padded(&mut v, self.1 as u64, 2);
        v.push('/');
        if self.0 >= 0 {
            push_decimal(&mut v, self.0 as u64);
        } else {
            v.push('-');
            push_decimal(&mut v, (-(self.0 as i64)) as u64);
        }
        string_of(&v)
    }

    /// Reads a date typed by hand; `today` gives the year when it is left out.
    pub fn parse(s: &str, today: Date) -> (r: Option<Date>)
        ensures r == parse_date(s@, today),
    {
        let chars = chars_of(s);
        let pieces = split_chars(Sep::DateField, &chars);
        let ghost ps = split(Sep::DateField, s@);
        assert(pieces@.map_values(|p: Vec<char>| p@) == ps);
        let mut f: Vec<u32> = Vec::new();
        let mut i: usize = 0;
        while i < pieces.len()
            invariant
                i <= pieces@.len() == ps.len(),
                ps == split(Sep::DateField, s@),
                pieces@.map_values(|p: Vec<char>| p@) == ps,
                f@.len() == i,
                forall|k: int| 0 <= k < i ==> (#[trigger] parse_u32_spec(trim(ps[k]))) == Some(f@[k]),
            decreases pieces@.len() - i,
        {
            assert(pieces@[i as int]@ == ps[i as int]);
            let t = trim_chars(&pieces[i]);
            match parse_u32(&t) {
                Some(n) => f.push(n),
                None => {
                    assert(parse_u32_spec(trim(ps[i as int])) is None);
                    assert(fields_of(ps) is None);
                    return None;
                }
            }
            i += 1;
        }
        assert(fields_of(ps) == Some(f@));
        let cand = if f.len() == 3 && f[0] > 31 {
            Some(Date(#[verifier::truncate] (f[0] as i32), f[1], f[2]))
        } else if f.len() == 3 {
            let y: u32 = f[2];
            Some(Date(#[verifier::truncate] ((if y < 100 { 2000 + y } else { y }) as i32), f[1], f[0]))
        } else if f.len() == 2 {
            Some(Date(today.0, f[1], f[0]))
        } else {
            None
        };
        match cand {
            Some(d) => if 1 <= d.1 && d.1 <= 12 && 1 <= d.2 && d.2 <= 31 { Some(d) } else { None },
            None => None,
        }
    }
}

/// A valid date written `DD/MM/YYYY` reads back as itself, for years from 100 on (a year
/// below 100 reads as one of the 2000s).
pub proof fn lemma_parse_fr(d: Date, today: Date)
    requires
        is_valid(d),
        d.0 >= 100,
    ensures
        parse_date(fr_text(d), today) == Some(d),
{
    lemma_padded_reads_back(d.2 as nat, 2);
    lemma_padded_reads_back(d.1 as nat, 2);
    lemma_padded_reads_back(d.0 as nat, 0);
    assert(zero_padded(decimal(d.0 as nat), 0) == decimal(d.0 as nat));
    let a = zero_padded(decimal(d.2 as nat), 2);
    let b = zero_padded(decimal(d.1 as nat), 2);
    let c = decimal(d.0 as nat);
    lemma_split_three(Sep::DateField, a, '/', b, '/', c);
    let ps = split(Sep::DateField, fr_text(d));
    assert(ps == seq![a, b, c]);
    assert(parse_u32_spec(trim(ps[0])) == Some(d.2));
    assert(parse_u32_spec(trim(ps[1])) == Some(d.1));
    assert(parse_u32_spec(trim(ps[2])) == Some(d.0 as u32));
    let f = date_fields(fr_text(d))->0;
    assert(f == seq![d.2, d.1, d.0 as u32]);
}

/// A valid date written `YYYY-MM-DD` reads back as itself, for years from 32 on (a smaller
/// year would read as a day).
pub proof fn lemma_parse_iso(d: Date, today: Date)
    requires
        is_valid(d),
        d.0 >= 32,
    ensures
        parse_date(iso_text(d), today) == Some(d),
{
    lemma_padded_reads_back(d.2 as nat, 2);
    lemma_padded_reads_back(d.1 as nat, 2);
    lemma_padded_reads_back(d.0 as nat, 4);
    let a = zero_padded(decimal(d.0 as nat), 4);
    let b = zero_padded(decimal(d.1 as nat), 2);
    let c = zero_padded(decimal(d.2 as nat), 2);
    lemma_split_three(Sep::DateField, a, '-', b, '-', c);
    let ps = split(Sep::DateField, iso_text(d));
    assert(ps == seq![a, b, c]);
    assert(parse_u32_spec(trim(ps[0])) == Some(d.0 as u32));
    assert(parse_u32_spec(trim(ps[1])) == Some(d.1));
    assert(parse_u32_spec(trim(ps[2])) == Some(d.2));
    let f = date_fields(iso_text(d))->0;
    assert(f == seq![d.0 as u32, d.1, d.2]);
}

/// A valid date with day number `n` is `date_at(n)`.
proof fn date_at_is(r: Date, n: int)
    requires
        is_valid(r),
        day_number(r) == n,
        day_in_range(n),
    ensures
        r == date_at(n),
{
    lemma_date_at(n);
    lemma_day_number_injective(r, date_at(n));
}

/// Adding days twice is adding their sum: the date `b` days after the date `a` days after `d`
/// is the date `a + b` days after `d`.
pub proof fn lemma_plus_composes(d: Date, a: int, b: int)
    requires
        day_in_range(day_number(d) + a),
        day_in_range(day_number(d) + a + b),
    ensures
        date_at(day_number(date_at(day_number(d) + a)) + b) == date_at(day_number(d) + a + b),
{
    lemma_date_at(day_number(d) + a);
}

/// `a` comes before `b` on the calendar.
pub open spec fn before(a: Date, b: Date) -> bool {
    a.0 < b.0 || (a.0 == b.0 && (a.1 < b.1 || (a.1 == b.1 && a.2 < b.2)))
}

/// Day numbers grow in calendar order.
pub proof fn lemma_day_number_increases(a: Date, b: Date)
    requires
        is_valid(a),
        is_valid(b),
        before(a, b),
    ensures
        day_number(a) < day_number(b),
{
    lemma_day_of_march_year(a);
    lemma_day_of_march_year(b);
    let ya = march_year(a.0 as int, a.1 as int);
    let yb = march_year(b.0 as int, b.1 as int);
    let ma = (a.1 + 9) % 12;
    let mb = (b.1 + 9) % 12;
    if ya < yb {
        lemma_march_years_increase(ya, yb);
    } else {
        assert(ya == yb);
        if ma < mb {
            assert(days_to_march_month(ma + 1) <= days_to_march_month(mb));
        } else {
            assert(ma == mb);
            assert(a.1 == b.1);
        }
    }
}

} // verus!
