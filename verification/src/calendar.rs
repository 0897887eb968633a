//! The small calendar of the capture window: one month on show, its grid of days, how each
//! day is drawn, and the shortcut chips under it.
use vstd::prelude::*;
use crate::date::{Date, day_in_range, day_number, days_in_month, is_leap, is_valid, weekday_of};
use crate::text::{decimal, push_decimal, string_of, to_uppercase, uppercase};

verus! {

/// The month before (`view` is a year and a month, 1 to 12).
pub fn prev_month(view: (i32, u32)) -> (r: (i32, u32))
    requires
        1 <= view.1 <= 12,
        view.0 > i32::MIN,
    ensures
        r == (if view.1 == 1 { ((view.0 - 1) as i32, 12u32) } else { (view.0, (view.1 - 1) as u32) }),
{
    if view.1 == 1 { (view.0 - 1, 12) } else { (view.0, view.1 - 1) }
}

/// The month after.
pub fn next_month(view: (i32, u32)) -> (r: (i32, u32))
    requires
        1 <= view.1 <= 12,
        view.0 < i32::MAX,
    ensures
        r == (if view.1 == 12 { ((view.0 + 1) as i32, 1u32) } else { (view.0, (view.1 + 1) as u32) }),
{
    if view.1 == 12 { (view.0 + 1, 1) } else { (view.0, view.1 + 1) }
}

/// The first day of the month after.
pub open spec fn first_of_next(view: (i32, u32)) -> Date {
    if view.1 == 12 { Date((view.0 + 1) as i32, 1, 1) } else { Date(view.0, (view.1 + 1) as u32, 1) }
}

/// The grid of a month: how many days it has and how many blank cells come before the first,
/// Monday first.
pub struct MonthGrid {
    pub n_days: u32,
    pub offset: u32,
}

/// The number of days of a month, counted as the calendar draws it: from its first day to the
/// first of the next.
pub open spec fn month_length(view: (i32, u32)) -> int {
    day_number(first_of_next(view)) - day_number(Date(view.0, view.1, 1))
}

/// The grid of the month on show.
pub fn month_grid(view: (i32, u32)) -> (g: MonthGrid)
    requires
        1 <= view.1 <= 12,
        view.0 < i32::MAX,
    ensures
        g.n_days == month_length(view),
        g.n_days == days_in_month(view.0 as int, view.1 as int),
        g.offset == weekday_of(Date(view.0, view.1, 1)),
{
    let first = Date(view.0, view.1, 1);
    let next = if view.1 == 12 { Date(view.0 + 1, 1, 1) } else { Date(view.0, view.1 + 1, 1) };
    proof {
        lemma_month_length(view);
    }
    let n_days = (next.days() - first.days()) as u32;
    let offset = first.weekday();
    MonthGrid { n_days, offset }
}

/// A month of the calendar counts as many days as the calendar says it has.
pub proof fn lemma_month_length(view: (i32, u32))
    requires
        1 <= view.1 <= 12,
        view.0 < i32::MAX,
    ensures
        month_length(view) == days_in_month(view.0 as int, view.1 as int),
{
    let y = view.0 as int;
    let m = view.1 as int;
    let yp = if m <= 2 { y - 1 } else { y };
    let era = yp / 400;
    let yoe = yp % 400;
    assert(400 * era + yoe == yp);
    crate::date::lemma_march_year_length(era, yoe);
    if m == 12 {
        assert(crate::date::march_year(y + 1, 1) == y);
    }
}

/// The date in a cell of the grid, when the cell holds one.
pub fn cell_date(view: (i32, u32), g: &MonthGrid, cell: u32) -> (r: Option<Date>)
    ensures
        r == (if g.offset <= cell && cell < g.offset + g.n_days {
            Some(Date(view.0, (view.1) as u32, (cell - g.offset + 1) as u32))
        } else {
            None
        }),
{
    if g.offset <= cell && (cell - g.offset) < g.n_days {
        Some(Date(view.0, view.1, cell - g.offset + 1))
    } else {
        None
    }
}

/// How a day of the grid is drawn.
#[derive(Clone, Copy, PartialEq, Eq, Structural, Debug)]
pub enum DayTone {
    /// The selected day: dark on the accent disc.
    Selected,
    /// Today: accent, ringed.
    Today,
    /// Before today: dim.
    Past,
    /// Saturday or Sunday: muted.
    Weekend,
    Plain,
}

/// The tone of a day: selected first, then today, then past, then weekend.
pub open spec fn day_tone_spec(d: Date, selected: Option<Date>, today: Date) -> DayTone {
    if selected == Some(d) {
        DayTone::Selected
    } else if d == today {
        DayTone::Today
    } else if day_number(d) < day_number(today) {
        DayTone::Past
    } else if weekday_of(d) >= 5 {
        DayTone::Weekend
    } else {
        DayTone::Plain
    }
}

/// How to draw a day of the grid.
pub fn day_tone(d: Date, selected: Option<Date>, today: Date) -> (r: DayTone)
    ensures r == day_tone_spec(d, selected, today),
{
    let is_sel = match selected {
        Some(s) => s == d,
        None => false,
    };
    if is_sel {
        DayTone::Selected
    } else if d == today {
        DayTone::Today
    } else if d.days() < today.days() {
        DayTone::Past
    } else if d.weekday() >= 5 {
        DayTone::Weekend
    } else {
        DayTone::Plain
    }
}

/// A day after today that is not the selected one is drawn as a weekend day exactly when it
/// is a Saturday or a Sunday, and plainly on the five working days.
pub proof fn lemma_future_weekends(d: Date, selected: Option<Date>, today: Date)
    requires
        selected != Some(d),
        day_number(today) < day_number(d),
    ensures
        (day_tone_spec(d, selected, today) == DayTone::Weekend) <==> (weekday_of(d) == 5 || weekday_of(d) == 6),
        (day_tone_spec(d, selected, today) == DayTone::Plain) <==> (0 <= weekday_of(d) <= 4),
        day_tone_spec(d, selected, today) == DayTone::Weekend || day_tone_spec(d, selected, today) == DayTone::Plain,
{
    assert(0 <= weekday_of(d) < 7);
}

/// Days to the next Friday, a whole week when today is one.
pub open spec fn days_to_friday(today: Date) -> int {
    let n = (4 + 7 - weekday_of(today)) % 7;
    if n == 0 { 7 } else { n }
}

/// The dates of the chips under the calendar: tomorrow, next Friday, a week on, thirty days
/// on.
pub fn quick_dates(today: Date) -> (r: [Date; 4])
    requires
        day_in_range(day_number(today)),
        day_in_range(day_number(today) + 30),
    ensures
        day_number(r[0]) == day_number(today) + 1,
        day_number(r[1]) == day_number(today) + days_to_friday(today),
        day_number(r[2]) == day_number(today) + 7,
        day_number(r[3]) == day_number(today) + 30,
        is_valid(r[0]) && is_valid(r[1]) && is_valid(r[2]) && is_valid(r[3]),
{
    let w = today.weekday() as i64;
    let to_friday = (4 + 7 - w) % 7;
    let k: i64 = if to_friday == 0 { 7 } else { to_friday };
    assert(k == days_to_friday(today) && 1 <= k <= 7);
    let a = today.plus(1);
    let b = today.plus(k);
    let c = today.plus(7);
    let d = today.plus(30);
    [a, b, c, d]
}

/// Next Friday is a Friday, one to seven days ahead.
pub proof fn lemma_friday(today: Date)
    ensures
        1 <= days_to_friday(today) <= 7,
        (weekday_of(today) + days_to_friday(today)) % 7 == 4,
{
}

/// The month names, in French.
pub open spec fn month_name(m: int) -> Seq<char> {
    if m == 1 { seq!['j', 'a', 'n', 'v', 'i', 'e', 'r'] }
    else if m == 2 { seq!['f', 'é', 'v', 'r', 'i', 'e', 'r'] }
    else if m == 3 { seq!['m', 'a', 'r', 's'] }
    else if m == 4 { seq!['a', 'v', 'r', 'i', 'l'] }
    else if m == 5 { seq!['m', 'a', 'i'] }
    else if m == 6 { seq!['j', 'u', 'i', 'n'] }
    else if m == 7 { seq!['j', 'u', 'i', 'l', 'l', 'e', 't'] }
    else if m == 8 { seq!['a', 'o', 'û', 't'] }
    else if m == 9 { seq!['s', 'e', 'p', 't', 'e', 'm', 'b', 'r', 'e'] }
    else if m == 10 { seq!['o', 'c', 't', 'o', 'b', 'r', 'e'] }
    else if m == 11 { seq!['n', 'o', 'v', 'e', 'm', 'b', 'r', 'e'] }
    else { seq!['d', 'é', 'c', 'e', 'm', 'b', 'r', 'e'] }
}

fn month_chars(m: u32) -> (r: Vec<char>)
    requires 1 <= m <= 12,
    ensures r@ == month_name(m as int),
{
    if m == 1 { vec!['j', 'a', 'n', 'v', 'i', 'e', 'r'] }
    else if m == 2 { vec!['f', 'é', 'v', 'r', 'i', 'e', 'r'] }
    else if m == 3 { vec!['m', 'a', 'r', 's'] }
    else if m == 4 { vec!['a', 'v', 'r', 'i', 'l'] }
    else if m == 5 { vec!['m', 'a', 'i'] }
    else if m == 6 { vec!['j', 'u', 'i', 'n'] }
    else if m == 7 { vec!['j', 'u', 'i', 'l', 'l', 'e', 't'] }
    else if m == 8 { vec!['a', 'o', 'û', 't'] }
    else if m == 9 { vec!['s', 'e', 'p', 't', 'e', 'm', 'b', 'r', 'e'] }
    else if m == 10 { vec!['o', 'c', 't', 'o', 'b', 'r', 'e'] }
    else if m == 11 { vec!['n', 'o', 'v', 'e', 'm', 'b', 'r', 'e'] }
    else { vec!['d', 'é', 'c', 'e', 'm', 'b', 'r', 'e'] }
}

/// The calendar's title: the month's name with its first letter in capitals, then the year.
pub open spec fn month_title_spec(view: (i32, u32)) -> Seq<char> {
    let n = month_name(view.1 as int);
    uppercase(n.take(1)) + n.skip(1) + seq![' '] + crate::date::year_plain(view.0 as int)
}

/// The calendar's title, "Septembre 2026".
pub fn month_title(view: (i32, u32)) -> (r: String)
    requires 1 <= view.1 <= 12,
    ensures r@ == month_title_spec(view),
{
    let n = month_chars(view.1);
    let first = crate::text::slice_of(&n, 0, 1);
    let rest = crate::text::slice_of(&n, 1, n.len());
    let mut v = crate::text::concat(&to_uppercase(&first), &rest);
    v.push(' ');
    if view.0 >= 0 {
        push_decimal(&mut v, view.0 as u64);
    } else {
        v.push('-');
        push_decimal(&mut v, (-(view.0 as i64)) as u64);
    }
    string_of(&v)
}

} // verus!
