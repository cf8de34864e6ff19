use event::date::CalDate;
use event::event::Date;
use event::event::Event;
use event::event::EventKind;
use event::query::print;
use event::query::query;
use event::query::report;
use event::query::Mode;

const SEP: &str = "============================================";

fn ymd(year: i32, month: u32, day: u32) -> CalDate {
    CalDate { year, month, day }
}

fn ev(name: &str, date: Date) -> Event {
    Event::new(name.to_string(), date, EventKind::Other)
}

fn trunc(month: u32, day: u32) -> Date {
    Date::Trunc { month, day }
}

#[test]
fn all_on_empty_list_shows_no_events() {
    let events: Vec<Event> = Vec::new();
    let lines = report(&events, Mode::All, &ymd(2024, 5, 1));
    assert_eq!(lines, vec!["All events".to_string(), SEP.to_string(), "There is no event to display".to_string()]);
}

#[test]
fn today_lists_only_todays_events() {
    let today = ymd(2024, 5, 10);
    let events = vec![ev("a", trunc(5, 10)), ev("b", trunc(5, 11)), ev("c", trunc(0, 4))];
    assert_eq!(query(&events, Mode::Today, &today), vec![0]);
}

#[test]
fn listings_are_sorted_by_resolved_date() {
    let today = ymd(2024, 1, 1);
    let events = vec![
        ev("dec", trunc(12, 24)),
        ev("bad", trunc(0, 1)),
        ev("mar", trunc(3, 1)),
        ev("full", Date::Full(ymd(2024, 2, 14))),
        ev("jan", trunc(1, 5)),
        ev("mar again", trunc(3, 1)),
    ];
    assert_eq!(query(&events, Mode::Upcoming, &today), vec![4, 3, 2, 5, 0]);
    assert_eq!(query(&events, Mode::All, &today), vec![4, 3, 2, 5, 0, 1]);
}

#[test]
fn upcoming_skips_past_dates() {
    let today = ymd(2024, 6, 15);
    let events = vec![ev("past", trunc(6, 14)), ev("today", trunc(6, 15)), ev("old", Date::Full(ymd(1990, 7, 1)))];
    assert_eq!(query(&events, Mode::Upcoming, &today), vec![1]);
}

#[test]
fn month_keeps_rest_of_this_month() {
    let today = ymd(2024, 4, 10);
    let events = vec![ev("before", trunc(4, 9)), ev("after", trunc(4, 30)), ev("next", trunc(5, 1)), ev("on", trunc(4, 10))];
    assert_eq!(query(&events, Mode::Month, &today), vec![3, 1]);
}

#[test]
fn week_counts_weeks_from_day_of_year() {
    // day 8 of the year starts week 2; day 14 ends it
    let today = ymd(2023, 1, 9);
    let events = vec![ev("in", trunc(1, 14)), ev("next week", trunc(1, 15)), ev("past", trunc(1, 8))];
    assert_eq!(query(&events, Mode::Week, &today), vec![0]);
}

#[test]
fn thirty_day_window_boundary() {
    // 2024-03-01 is day 61; day 91 is 2024-03-31, day 92 is 2024-04-01
    let today = ymd(2024, 3, 1);
    let events = vec![ev("plus 31", trunc(4, 1)), ev("plus 30", trunc(3, 31)), ev("today", trunc(3, 1))];
    assert_eq!(query(&events, Mode::Next30, &today), vec![2, 1]);
}

#[test]
fn thirty_day_window_does_not_cross_new_year() {
    let today = ymd(2024, 12, 20);
    let events = vec![ev("next year", Date::Full(ymd(2025, 1, 5))), ev("soon", trunc(12, 31))];
    assert_eq!(query(&events, Mode::Next30, &today), vec![1]);
}

#[test]
fn render_marks_today_and_shows_glyph() {
    let today = ymd(2024, 4, 20);
    let b = Event::new("Friend".to_string(), trunc(4, 20), EventKind::Birthday);
    assert_eq!(b.render(&today), "*** => 2024-04-20\tFriend \u{1F380}");
    let n = Event::new("Name".to_string(), trunc(5, 2), EventKind::Namesday);
    assert_eq!(n.render(&today), "2024-05-02\tName \u{1F389}");
    let o = Event::new("Broken".to_string(), trunc(0, 2), EventKind::Other);
    assert_eq!(o.render(&today), "___NONE___\tBroken ");
}

#[test]
fn print_lists_lines_in_order() {
    let today = ymd(2024, 4, 1);
    let events = vec![ev("x", trunc(4, 3)), ev("y", trunc(4, 2))];
    let lines = print("Heading", &events, &vec![1, 0], &today);
    assert_eq!(lines, vec!["Heading".to_string(), SEP.to_string(), "2024-04-02\ty ".to_string(), "2024-04-03\tx ".to_string()]);
}

#[test]
fn report_headings() {
    assert_eq!(Mode::Upcoming.heading(), "Coming events");
    assert_eq!(Mode::All.heading(), "All events");
    assert_eq!(Mode::Today.heading(), "Today events");
    assert_eq!(Mode::Month.heading(), "This month");
    assert_eq!(Mode::Week.heading(), "This week");
    assert_eq!(Mode::Next30.heading(), "Next 30 days");
}

#[test]
fn report_of_today() {
    let today = ymd(2024, 4, 20);
    let events = vec![ev("tomorrow", trunc(4, 21)), ev("now", trunc(4, 20))];
    let lines = report(&events, Mode::Upcoming, &today);
    assert_eq!(lines, vec!["Coming events".to_string(), SEP.to_string(), "*** => 2024-04-20\tnow ".to_string(), "2024-04-21\ttomorrow ".to_string()]);
}

#[test]
fn render_pads_and_signs_years() {
    let today = ymd(2024, 1, 1);
    let early = ev("early", Date::Full(ymd(5, 3, 7)));
    assert_eq!(early.render(&today), "0005-03-07\tearly ");
    let late = ev("late", Date::Full(ymd(10000, 12, 31)));
    assert_eq!(late.render(&today), "+10000-12-31\tlate ");
    let bce = ev("bce", Date::Full(ymd(-1, 1, 1)));
    assert_eq!(bce.render(&today), "-0001-01-01\tbce ");
}
