use ical::parser::ParserError;
use worktable::providers::ics::{
    entries_of_calendars, entry_of_event, read_fields, read_line, read_notes, read_timestamp,
    Event, Ics, IcsError, Noted, Property,
};
use worktable::text::{cut_at, parse_thousandths, same_text};

fn property(name: &str, value: &str) -> Property {
    Property { name: name.to_string(), value: Some(value.to_string()) }
}

fn event(properties: &[(&str, &str)]) -> Event {
    Event { properties: properties.iter().map(|(n, v)| property(n, v)).collect() }
}

const FEED: &str = "BEGIN:VCALENDAR\r\nVERSION:2.0\r\nBEGIN:VEVENT\r\nSUMMARY:project1: task1\r\nDESCRIPTION:absolute: 0.5\r\nDTSTART:20241012T090000\r\nDTEND:20241012T100000\r\nEND:VEVENT\r\nBEGIN:VEVENT\r\nSUMMARY:holiday\r\nDESCRIPTION:out-of-office\r\nDTSTART:20241013T000000\r\nDTEND:20241014T000000\r\nEND:VEVENT\r\nBEGIN:VEVENT\r\nSUMMARY:long ago\r\nDTSTART:19991012T090000\r\nDTEND:19991012T100000\r\nEND:VEVENT\r\nEND:VCALENDAR\r\n";

#[test]
fn entries_of_a_feed() {
    let entries = Ics::entries(FEED.as_bytes(), 1_700_000_000, 1_800_000_000).unwrap();
    assert_eq!(entries.len(), 2);
    assert_eq!(entries[0].id, "project1: task1");
    assert_eq!(entries[0].description, "absolute: 0.5");
    assert!(entries[0].billable);
    assert_eq!(entries[0].project, "project1");
    assert_eq!(entries[0].task, "task1");
    assert_eq!(entries[0].tags, Vec::<String>::new());
    assert_eq!(entries[0].start, 1_728_723_600);
    assert_eq!(entries[0].end, 1_728_727_200);
    assert_eq!(entries[0].absolute, Some(500));
    assert_eq!(entries[1].project, "holiday");
    assert_eq!(entries[1].task, "");
    assert_eq!(entries[1].tags, vec!["out-of-office".to_string()]);
    assert_eq!(entries[1].absolute, None);
    assert!(entries.iter().all(|e| e.is_valid()));
}

#[test]
fn the_window_of_a_feed() {
    assert_eq!(Ics::entries(FEED.as_bytes(), i64::MIN, i64::MAX).unwrap().len(), 3);
    assert_eq!(Ics::entries(FEED.as_bytes(), 1_728_727_200, 1_728_727_200).unwrap().len(), 1);
    assert_eq!(Ics::entries(FEED.as_bytes(), 1_728_727_201, 1_728_777_599).unwrap().len(), 0);
    assert_eq!(Ics::entries(b"", 0, 1).unwrap().len(), 0);
}

#[test]
fn a_feed_that_is_not_well_formed() {
    let cut_short = "BEGIN:VCALENDAR\r\nBEGIN:VEVENT\r\nSUMMARY:a\r\n";
    assert!(matches!(Ics::entries(cut_short.as_bytes(), 0, 1), Err(IcsError::Calendar(_))));
    assert!(matches!(Ics::entries(b"hello\r\n", 0, 1), Err(IcsError::Calendar(_))));
    let text = Ics::entries(b"hello:world\r\n", 0, 1).unwrap_err().message();
    assert_eq!(text, "calendar not well formed: missing header");
}

#[test]
fn a_date_of_another_form() {
    let feed = FEED.replace("20241012T090000", "2024-10-12 09:00");
    match Ics::entries(feed.as_bytes(), 0, i64::MAX) {
        Err(IcsError::Date(value)) => assert_eq!(value, "2024-10-12 09:00"),
        other => panic!("{:?}", other),
    }
}

#[test]
fn calendars_in_their_order() {
    let good = vec![event(&[("SUMMARY", "a"), ("DTSTART", "20241012T090000"), ("DTEND", "20241012T100000")])];
    let bad = vec![event(&[("DTSTART", "soon")])];
    let entries = entries_of_calendars(&vec![Ok(good.clone()), Ok(vec![]), Ok(good.clone())], 0, i64::MAX).unwrap();
    assert_eq!(entries.len(), 2);
    let first = entries_of_calendars(&vec![Ok(good.clone()), Err(ParserError::MissingHeader), Ok(bad.clone())], 0, i64::MAX);
    assert!(matches!(first, Err(IcsError::Calendar(_))));
    let second = entries_of_calendars(&vec![Ok(bad), Err(ParserError::MissingHeader)], 0, i64::MAX);
    assert!(matches!(second, Err(IcsError::Date(_))));
    assert_eq!(entries_of_calendars(&vec![], 0, 1).unwrap().len(), 0);
}

#[test]
fn what_becomes_of_an_event() {
    let whole = event(&[
        ("UID", "1"),
        ("SUMMARY", " p : t : u "),
        ("DTSTART", "20241012T090000"),
        ("DTEND", "20241012T100000"),
        ("DESCRIPTION", "notes\nworkday: no\r\nabsolute : 1.25 \n"),
    ]);
    let entry = entry_of_event(&whole, 0, i64::MAX).unwrap().unwrap();
    assert_eq!(entry.id, " p : t : u ");
    assert_eq!(entry.project, "p");
    assert_eq!(entry.task, "t : u");
    assert_eq!(entry.description, "notes\nworkday: no\r\nabsolute : 1.25 \n");
    assert_eq!(entry.tags, vec!["out-of-office".to_string()]);
    assert_eq!(entry.absolute, Some(1250));
    let plain = event(&[("SUMMARY", "p"), ("DTSTART", "20241012T090000"), ("DTEND", "20241012T090000")]);
    let entry = entry_of_event(&plain, 0, i64::MAX).unwrap().unwrap();
    assert_eq!(entry.description, "p");
    assert_eq!(entry.start, entry.end);
    for missing in ["SUMMARY", "DTSTART", "DTEND"] {
        let properties: Vec<Property> = whole.properties.iter().filter(|p| p.name != missing).cloned().collect();
        assert!(entry_of_event(&Event { properties }, 0, i64::MAX).unwrap().is_none());
    }
    assert!(entry_of_event(&whole, 1_728_727_201, i64::MAX).unwrap().is_none());
    assert!(entry_of_event(&whole, 0, 1_728_723_599).unwrap().is_none());
    assert!(entry_of_event(&whole, 0, 1_728_723_600).unwrap().is_some());
}

#[test]
fn an_event_that_ends_before_it_starts() {
    let backwards = event(&[("SUMMARY", "p"), ("DTSTART", "20241012T100000"), ("DTEND", "20241012T090000")]);
    match entry_of_event(&backwards, 0, i64::MAX) {
        Err(IcsError::EndsBeforeStart(name)) => assert_eq!(name, "p"),
        other => panic!("{:?}", other),
    }
    assert!(entry_of_event(&backwards, 1_728_723_601, i64::MAX).unwrap().is_none());
}

#[test]
fn an_override_that_is_no_number() {
    let odd = event(&[
        ("SUMMARY", "p"),
        ("DTSTART", "20241012T090000"),
        ("DTEND", "20241012T100000"),
        ("DESCRIPTION", "absolute: half"),
    ]);
    match entry_of_event(&odd, 0, i64::MAX) {
        Err(error) => {
            assert!(matches!(&error, IcsError::Absolute(value) if value == "half"));
            assert_eq!(error.message(), "not a number of days: half");
        }
        other => panic!("{:?}", other),
    }
}

#[test]
fn the_last_property_of_a_name_counts() {
    let twice = Event {
        properties: vec![
            property("SUMMARY", "first"),
            property("DTSTART", "20241012T090000"),
            Property { name: "DTSTART".to_string(), value: None },
            property("SUMMARY", "second"),
            property("DESCRIPTION", "text"),
            Property { name: "DESCRIPTION".to_string(), value: None },
        ],
    };
    let found = read_fields(&twice).unwrap();
    assert_eq!(found.name, Some("second".to_string()));
    assert_eq!(found.description, None);
    assert_eq!(found.start, Some(1_728_723_600));
    assert_eq!(found.end, None);
    let lower = event(&[("summary", "x"), ("dtstart", "never")]);
    let found = read_fields(&lower).unwrap();
    assert_eq!(found.name, None);
    assert_eq!(found.start, None);
}

#[test]
fn dates_of_the_feed() {
    assert_eq!(read_timestamp("19700101T000000"), Some(0));
    assert_eq!(read_timestamp("20241012T130000"), Some(1_728_738_000));
    assert_eq!(read_timestamp("19691231T235959"), Some(-1));
    assert_eq!(read_timestamp("20241012T130000Z"), None);
    assert_eq!(read_timestamp("20241312T130000"), None);
    assert_eq!(read_timestamp("20241012"), None);
    assert_eq!(read_timestamp(""), None);
}

#[test]
fn annotations_line_by_line() {
    let start = Noted { workday: true, absolute: None };
    let keep = |line: &str| {
        let noted = read_line(start, line).unwrap();
        (noted.workday, noted.absolute)
    };
    assert_eq!(keep("absolute: 0.5"), (true, Some(500)));
    assert_eq!(keep("  absolute :2"), (true, Some(2000)));
    for line in ["workday: 0", "workday:no", "work-day: false", "outofoffice", "out-of-office:", "out-of-office: 1", "outofoffice: yes", " out-of-office : true "] {
        assert_eq!(keep(line), (false, None), "{}", line);
    }
    for line in ["workday: 1", "workday", "work-day: yes", "outofoffice: no", "out-of-office: 0", "Workday: no", "note: workday: no", "", ":"] {
        assert_eq!(keep(line), (true, None), "{}", line);
    }
    assert!(matches!(read_line(start, "absolute"), Err(IcsError::Absolute(value)) if value.is_empty()));
    assert!(matches!(read_line(start, "absolute: -1"), Err(IcsError::Absolute(_))));
    let noted = read_notes(&Some("absolute: 1\nworkday: no\nabsolute: 0.25".to_string())).unwrap();
    assert_eq!((noted.workday, noted.absolute), (false, Some(250)));
    let noted = read_notes(&None).unwrap();
    assert_eq!((noted.workday, noted.absolute), (true, None));
    assert!(read_notes(&Some("workday: no\nabsolute: x\nabsolute: 1".to_string())).is_err());
}

#[test]
fn decimal_numbers_as_thousandths() {
    assert_eq!(parse_thousandths("0"), Some(0));
    assert_eq!(parse_thousandths("1"), Some(1000));
    assert_eq!(parse_thousandths("0.5"), Some(500));
    assert_eq!(parse_thousandths(".5"), Some(500));
    assert_eq!(parse_thousandths("5."), Some(5000));
    assert_eq!(parse_thousandths("0.25"), Some(250));
    assert_eq!(parse_thousandths("0.125"), Some(125));
    assert_eq!(parse_thousandths("0.1234"), Some(123));
    assert_eq!(parse_thousandths("0.1235"), Some(124));
    assert_eq!(parse_thousandths("0.9995"), Some(1000));
    assert_eq!(parse_thousandths("0.33333333333333333333333"), Some(333));
    assert_eq!(parse_thousandths("0007.007"), Some(7007));
    assert_eq!(parse_thousandths("4294967.295"), Some(u32::MAX));
    assert_eq!(parse_thousandths("4294967.2954"), Some(u32::MAX));
}

#[test]
fn texts_that_are_no_decimal_numbers() {
    for text in ["", ".", "-1", "+1", "1e3", "1,5", "1.2.3", " 1", "1 ", "0x10", "١", "inf", "4294967.296", "4294967.2955", "4294968", "99999999999999999999999999999"] {
        assert_eq!(parse_thousandths(text), None, "{}", text);
    }
}

#[test]
fn cutting_at_a_character() {
    assert_eq!(cut_at("a:b:c", ":"), ("a", "b:c"));
    assert_eq!(cut_at("abc", ":"), ("abc", ""));
    assert_eq!(cut_at(":", ":"), ("", ""));
    assert_eq!(cut_at("é:ü", ":"), ("é", "ü"));
    assert!(same_text("a", "a"));
    assert!(!same_text("a", "A"));
}

#[test]
fn the_url_of_a_feed() {
    let options = vec![
        ("url".to_string(), "https://first.example".to_string()),
        ("name".to_string(), "work".to_string()),
        ("url".to_string(), "https://second.example".to_string()),
        ("URL".to_string(), "https://third.example".to_string()),
    ];
    assert_eq!(Ics::new(options).url(), "https://second.example");
}
