use prio::date::Date;
use prio::calendar::{cell_date, day_tone, month_grid, month_title, next_month, prev_month, quick_dates, DayTone};

#[test]
fn dates() {
    let today = Date(2026, 9, 9);
    assert_eq!(Date(1970, 1, 1).days(), 0);
    assert_eq!(Date(2000, 3, 1).days() - Date(2000, 2, 28).days(), 2); // leap year
    assert_eq!(Date::parse("15/09", today), Some(Date(2026, 9, 15)));
    assert_eq!(Date::parse("15/09/26", today), Some(Date(2026, 9, 15)));
    assert_eq!(Date::parse("2026-09-15", today), Some(Date(2026, 9, 15)));
    assert_eq!(Date::parse("32/09", today), None);
    assert_eq!(Date::parse("lundi", today), None);
    assert_eq!(Date(2026, 9, 15).days() - today.days(), 6);
    // round trip days <-> date, and weekday (2026-09-09 is a Wednesday)
    for d in [
        Date(1970, 1, 1),
        Date(2000, 2, 29),
        Date(2026, 9, 9),
        Date(2026, 12, 31),
        Date(2027, 1, 1),
    ] {
        assert_eq!(Date::from_days(d.days()), d);
    }
    assert_eq!(today.weekday(), 2);
    assert_eq!(Date(2026, 9, 14).weekday(), 0);
    assert_eq!(today.plus(30), Date(2026, 10, 9));
    assert_eq!(Date::parse(&Date(2026, 9, 15).fr(), today), Some(Date(2026, 9, 15)));
}

#[test]
fn written_forms() {
    assert_eq!(Date(2026, 9, 9).iso(), "2026-09-09");
    assert_eq!(Date(2026, 9, 9).fr(), "09/09/2026");
    assert_eq!(Date(7, 1, 2).iso(), "0007-01-02");
    assert_eq!(Date(7, 1, 2).fr(), "02/01/7");
}

#[test]
fn parse_forms_and_refusals() {
    let today = Date(2026, 9, 9);
    assert_eq!(Date::parse(" 1 / 2 / 2030 ", today), Some(Date(2030, 2, 1)));
    assert_eq!(Date::parse("1.2.99", today), Some(Date(2099, 2, 1)));
    assert_eq!(Date::parse("1-2-150", today), Some(Date(150, 2, 1)));
    assert_eq!(Date::parse("2030-13-01", today), None);
    assert_eq!(Date::parse("00/05", today), None);
    assert_eq!(Date::parse("1/2/3/4", today), None);
    assert_eq!(Date::parse("", today), None);
    assert_eq!(Date::parse("5", today), None);
    // a day the month does not have still reads: only 1..=31 and 1..=12 are checked
    assert_eq!(Date::parse("31/02/2026", today), Some(Date(2026, 2, 31)));
}

#[test]
fn reading_back_what_is_written() {
    let today = Date(2026, 9, 9);
    for d in [Date(2024, 2, 29), Date(1999, 12, 31), Date(2100, 1, 1), Date(100, 6, 6)] {
        assert_eq!(Date::parse(&d.fr(), today), Some(d));
        assert_eq!(Date::parse(&d.iso(), today), Some(d));
    }
    // a two-digit year reads as one of the 2000s
    assert_eq!(Date::parse(&Date(99, 6, 6).fr(), today), Some(Date(2099, 6, 6)));
}

#[test]
fn day_numbers() {
    assert_eq!(Date(1970, 1, 1).weekday(), 3);
    assert_eq!(Date::from_days(-1), Date(1969, 12, 31));
    assert_eq!(Date::from_days(19_782), Date(2024, 2, 29));
    assert_eq!(Date(2024, 2, 28).plus(1), Date(2024, 2, 29));
    assert_eq!(Date(2024, 2, 28).plus(2), Date(2024, 3, 1));
    assert_eq!(Date(2023, 2, 28).plus(1), Date(2023, 3, 1));
    assert_eq!(Date(1900, 2, 28).plus(1), Date(1900, 3, 1));
    assert_eq!(Date(2026, 1, 1).plus(-1), Date(2025, 12, 31));
    assert_eq!(Date(-1, 12, 31).plus(1), Date(0, 1, 1));
    for n in [-800_000i64, -1, 0, 1, 59, 60, 365, 11_016, 1_000_000] {
        assert_eq!(Date::from_days(n).days(), n);
    }
}

#[test]
fn steps_add_up_and_order_holds() {
    let d = Date(2024, 2, 20);
    for (a, b) in [(5i64, 10i64), (-400, 30), (365, -366), (0, 0), (100_000, -99_999)] {
        assert_eq!(d.plus(a).plus(b), d.plus(a + b));
    }
    assert!(Date(2023, 12, 31).days() < Date(2024, 1, 1).days());
    assert!(Date(2024, 1, 31).days() < Date(2024, 2, 1).days());
    assert!(Date(-5, 3, 1).days() < Date(-5, 3, 2).days());
    // the far ends of the year range
    assert_eq!(Date::from_days(Date(i32::MAX, 12, 31).days()), Date(i32::MAX, 12, 31));
    assert_eq!(Date::from_days(Date(i32::MIN, 1, 1).days()), Date(i32::MIN, 1, 1));
}

#[test]
fn calendar_grid() {
    let g = month_grid((2026, 9));
    assert_eq!((g.n_days, g.offset), (30, 1));
    let f = month_grid((2024, 2));
    assert_eq!((f.n_days, f.offset), (29, 3));
    assert_eq!(month_grid((2023, 2)).n_days, 28);
    assert_eq!(month_grid((2026, 12)).n_days, 31);
    assert_eq!(cell_date((2026, 9), &g, 0), None);
    assert_eq!(cell_date((2026, 9), &g, 1), Some(Date(2026, 9, 1)));
    assert_eq!(cell_date((2026, 9), &g, 30), Some(Date(2026, 9, 30)));
    assert_eq!(cell_date((2026, 9), &g, 31), None);
    assert_eq!(prev_month((2026, 1)), (2025, 12));
    assert_eq!(prev_month((2026, 9)), (2026, 8));
    assert_eq!(next_month((2026, 12)), (2027, 1));
    assert_eq!(next_month((2026, 9)), (2026, 10));
}

#[test]
fn calendar_titles() {
    assert_eq!(month_title((2026, 9)), "Septembre 2026");
    assert_eq!(month_title((2026, 2)), "Février 2026");
    assert_eq!(month_title((2026, 8)), "Août 2026");
}

#[test]
fn calendar_days() {
    let today = Date(2026, 9, 9);
    let sel = Some(Date(2026, 9, 15));
    assert_eq!(day_tone(Date(2026, 9, 15), sel, today), DayTone::Selected);
    assert_eq!(day_tone(today, sel, today), DayTone::Today);
    assert_eq!(day_tone(today, Some(today), today), DayTone::Selected);
    assert_eq!(day_tone(Date(2026, 9, 8), sel, today), DayTone::Past);
    assert_eq!(day_tone(Date(2026, 9, 12), sel, today), DayTone::Weekend);
    assert_eq!(day_tone(Date(2026, 9, 14), sel, today), DayTone::Plain);
}

#[test]
fn quick_date_chips() {
    // a Wednesday: Friday is two days away
    assert_eq!(
        quick_dates(Date(2026, 9, 9)),
        [Date(2026, 9, 10), Date(2026, 9, 11), Date(2026, 9, 16), Date(2026, 10, 9)]
    );
    // on a Friday, next Friday is a week away
    assert_eq!(quick_dates(Date(2026, 9, 11))[1], Date(2026, 9, 18));
    // on a Saturday, six days
    assert_eq!(quick_dates(Date(2026, 9, 12))[1], Date(2026, 9, 18));
}
