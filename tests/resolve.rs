use event::date::try_date_from_md;
use event::date::CalDate;
use event::event::Date;
use event::event::Event;
use event::event::EventKind;

fn ymd(year: i32, month: u32, day: u32) -> CalDate {
    CalDate { year, month, day }
}

#[test]
fn existing_day_resolves_to_itself() {
    assert_eq!(try_date_from_md(2023, 4, 20), Some(ymd(2023, 4, 20)));
    assert_eq!(try_date_from_md(2023, 12, 31), Some(ymd(2023, 12, 31)));
    assert_eq!(try_date_from_md(2024, 2, 29), Some(ymd(2024, 2, 29)));
    assert_eq!(try_date_from_md(2023, 1, 1), Some(ymd(2023, 1, 1)));
}

#[test]
fn leap_day_falls_back_in_common_year() {
    assert_eq!(try_date_from_md(2023, 2, 29), Some(ymd(2023, 2, 28)));
    assert_eq!(try_date_from_md(1900, 2, 29), Some(ymd(1900, 2, 28)));
}

#[test]
fn thirty_first_of_short_month_falls_back() {
    assert_eq!(try_date_from_md(2023, 4, 31), Some(ymd(2023, 4, 30)));
    assert_eq!(try_date_from_md(2023, 2, 30), Some(ymd(2023, 2, 28)));
}

#[test]
fn fallback_stops_after_three_attempts() {
    assert_eq!(try_date_from_md(2023, 2, 31), None);
    assert_eq!(try_date_from_md(2024, 2, 31), Some(ymd(2024, 2, 29)));
    assert_eq!(try_date_from_md(2023, 4, 40), None);
}

#[test]
fn zero_month_or_day_never_resolves() {
    assert_eq!(try_date_from_md(2023, 0, 5), None);
    assert_eq!(try_date_from_md(2023, 5, 0), None);
    assert_eq!(try_date_from_md(2023, 0, 0), None);
    assert_eq!(try_date_from_md(2023, 13, 1), None);
}

#[test]
fn calendar_date_checks() {
    assert_eq!(CalDate::from_ymd(2020, 2, 29), Some(ymd(2020, 2, 29)));
    assert_eq!(CalDate::from_ymd(2020, 2, 30), None);
    assert_eq!(CalDate::from_ymd(2021, 2, 29), None);
    assert_eq!(CalDate::from_ymd(400000, 1, 1), None);
    assert!(ymd(2000, 2, 29).is_valid());
    assert!(!ymd(2100, 2, 29).is_valid());
}

#[test]
fn ordinal_and_week() {
    assert_eq!(ymd(2023, 1, 1).ordinal(), 1);
    assert_eq!(ymd(2023, 3, 1).ordinal(), 60);
    assert_eq!(ymd(2024, 3, 1).ordinal(), 61);
    assert_eq!(ymd(2024, 12, 31).ordinal(), 366);
    assert_eq!(ymd(2023, 1, 7).week(), 1);
    assert_eq!(ymd(2023, 1, 8).week(), 2);
}

#[test]
fn full_date_resolves_to_itself() {
    let e = Event::new("Wedding".to_string(), Date::Full(ymd(2010, 6, 12)), EventKind::Other);
    assert_eq!(e.try_date_in(2023).ok(), Some(ymd(2010, 6, 12)));
    assert_eq!(e.try_date().ok(), Some(ymd(2010, 6, 12)));
}

#[test]
fn recurring_date_resolves_in_given_year() {
    let e = Event::new("Anna".to_string(), Date::Trunc { month: 7, day: 26 }, EventKind::Namesday);
    assert_eq!(e.try_date_in(2023).ok(), Some(ymd(2023, 7, 26)));
    let this_year = match Date::default() {
        Date::Full(d) => d.year,
        Date::Trunc { .. } => panic!("default date is a full date"),
    };
    assert_eq!(e.try_date().ok().map(|d| d.year), Some(this_year));
}

#[test]
fn unresolvable_event_reports_its_description() {
    let e = Event::new("Ghost".to_string(), Date::Trunc { month: 0, day: 3 }, EventKind::Other);
    let err = e.try_date_in(2023).err().unwrap();
    assert_eq!(err.message(), "Wrong date format for Ghost # 2023-0-3");
    assert!(e.try_date().is_err());
}

#[test]
fn accessors_return_fields() {
    let e = Event::new("Bob".to_string(), Date::Trunc { month: 1, day: 2 }, EventKind::Birthday);
    assert_eq!(e.get_description(), "Bob");
    assert_eq!(e.get_date(), Date::Trunc { month: 1, day: 2 });
    assert_eq!(e.get_kind(), EventKind::Birthday);
    assert_eq!(EventKind::default(), EventKind::Other);
    match Date::default() {
        Date::Full(d) => assert!(d.is_valid()),
        Date::Trunc { .. } => panic!("default date is a full date"),
    }
}

#[test]
fn recurring_existing_day_always_resolves_now() {
    let e = Event::new("Spring".to_string(), Date::Trunc { month: 4, day: 20 }, EventKind::Other);
    let d = e.try_date().ok().unwrap();
    assert_eq!((d.month, d.day), (4, 20));
    let late = Event::new("Late".to_string(), Date::Trunc { month: 2, day: 31 }, EventKind::Other);
    let err = late.try_date_in(2023).err().unwrap();
    assert_eq!(err.message(), "Wrong date format for Late # 2023-2-31");
}
