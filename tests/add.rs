use event::date::CalDate;
use event::event::Date;
use event::event::Event;
use event::event::EventKind;
use event::input::add_event;
use event::input::clean_str;
use event::input::process_date_str;
use event::input::InputError;
use event::query::query;
use event::query::Mode;

#[test]
fn add_recurring_birthday_round_trip() {
    let mut events: Vec<Event> = Vec::new();
    assert_eq!(add_event(&mut events, "04-20\n", "Friend's bday\n", "0\n"), Ok(()));
    assert_eq!(events.len(), 1);
    assert_eq!(events[0].get_date(), Date::Trunc { month: 4, day: 20 });
    assert_eq!(events[0].get_kind(), EventKind::Birthday);
    assert_eq!(events[0].get_description(), "Friend's bday");
    let today = CalDate { year: 2031, month: 4, day: 2 };
    assert_eq!(query(&events, Mode::Month, &today), vec![0]);
}

#[test]
fn add_nonexistent_full_date_leaves_list_unchanged() {
    let mut events = vec![Event::new("kept".to_string(), Date::Trunc { month: 1, day: 1 }, EventKind::Other)];
    assert_eq!(add_event(&mut events, "2020-02-30", "x", "0"), Err(InputError::NonexistentDate));
    assert_eq!(events.len(), 1);
    assert_eq!(events[0].get_description(), "kept");
}

#[test]
fn add_rejects_unknown_kind() {
    let mut events: Vec<Event> = Vec::new();
    assert_eq!(add_event(&mut events, "05-01", "x", "3"), Err(InputError::KindOutOfRange));
    assert!(events.is_empty());
}

#[test]
fn add_full_date_namesday() {
    let mut events: Vec<Event> = Vec::new();
    assert_eq!(add_event(&mut events, "2020-04-20", "Party", "1"), Ok(()));
    assert_eq!(events[0].get_date(), Date::Full(CalDate { year: 2020, month: 4, day: 20 }));
    assert_eq!(events[0].get_kind(), EventKind::Namesday);
    assert_eq!(add_event(&mut events, "2020-04-21", "Other", "2"), Ok(()));
    assert_eq!(events[1].get_kind(), EventKind::Other);
}

#[test]
fn date_input_forms() {
    assert_eq!(process_date_str("04-20"), Ok(Date::Trunc { month: 4, day: 20 }));
    assert_eq!(process_date_str("+4-20\n"), Ok(Date::Trunc { month: 4, day: 20 }));
    assert_eq!(process_date_str("2020-04-20"), Ok(Date::Full(CalDate { year: 2020, month: 4, day: 20 })));
    assert_eq!(process_date_str("2020-02-30"), Err(InputError::NonexistentDate));
    assert_eq!(process_date_str("ab-20"), Err(InputError::MalformedMonth));
    assert_eq!(process_date_str("04-"), Err(InputError::MalformedDay));
    assert_eq!(process_date_str("99999999999-01-01"), Err(InputError::MalformedYear));
    assert_eq!(process_date_str("2020-x-01"), Err(InputError::MalformedMonth));
    assert_eq!(process_date_str("2020-01-"), Err(InputError::MalformedDay));
    assert_eq!(process_date_str("0420"), Err(InputError::PartCount));
    assert_eq!(process_date_str("1-2-3-4"), Err(InputError::PartCount));
    assert_eq!(process_date_str("00-00"), Ok(Date::Trunc { month: 0, day: 0 }));
}

#[test]
fn clean_str_removes_line_breaks() {
    let mut s = "a\nb\n".to_string();
    clean_str(&mut s);
    assert_eq!(s, "ab");
    let mut t = String::new();
    clean_str(&mut t);
    assert_eq!(t, "");
}

#[test]
fn kind_selectors() {
    assert_eq!(EventKind::from_selector("0"), Some(EventKind::Birthday));
    assert_eq!(EventKind::from_selector("1"), Some(EventKind::Namesday));
    assert_eq!(EventKind::from_selector("2"), Some(EventKind::Other));
    assert_eq!(EventKind::from_selector("02"), None);
    assert_eq!(EventKind::Birthday.glyph(), "\u{1F380}");
    assert_eq!(EventKind::Other.glyph(), "");
}
