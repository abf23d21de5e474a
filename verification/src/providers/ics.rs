//! Entries from an iCalendar feed.
//!
//! The feed is cut into calendars, events and properties by `ical`; dates are
//! read by `chrono`. What an event becomes is decided here: which of its
//! properties count, whether it lies in the window asked for, and what the
//! annotations in its description say.

use crate::calendar::timestamp_in_range;
use crate::entries::{Entry, EntryView};
use crate::text::{
    before_first, behind_first, cut_at, lines, lines_of, parse_thousandths, same_text, slices,
    thousandths_of, trim_ascii, trimmed,
};
use chrono::NaiveDateTime;
use ical::IcalParser;
use vstd::prelude::*;
use vstd::string::*;

verus! {

/// The error with which `ical` gives up on a calendar.
#[verifier::external_type_specification]
#[verifier::external_body]
pub struct ExParserError(ical::parser::ParserError);

/// The error with which `chrono` refuses a date.
#[verifier::external_type_specification]
#[verifier::external_body]
pub struct ExParseError(chrono::format::ParseError);

/// The value that `options` gives to `key`: that of the last pair with that
/// key.
pub open spec fn option_value(options: Seq<(String, String)>, key: Seq<char>) -> Option<Seq<char>>
    decreases options.len(),
{
    if options.len() == 0 {
        None
    } else if options.last().0@ == key {
        Some(options.last().1@)
    } else {
        option_value(options.drop_last(), key)
    }
}

/// One property of an event: its name and, where it has one, its value.
#[derive(Debug, Clone)]
pub struct Property {
    pub name: String,
    pub value: Option<String>,
}

impl View for Property {
    type V = (Seq<char>, Option<Seq<char>>);

    open spec fn view(&self) -> (Seq<char>, Option<Seq<char>>) {
        (
            self.name@,
            match self.value {
                Some(value) => Some(value@),
                None => None,
            },
        )
    }
}

/// One event of a calendar: its properties, in the order of the feed.
#[derive(Debug, Clone)]
pub struct Event {
    pub properties: Vec<Property>,
}

impl View for Event {
    type V = Seq<(Seq<char>, Option<Seq<char>>)>;

    open spec fn view(&self) -> Seq<(Seq<char>, Option<Seq<char>>)> {
        self.properties@.map_values(|p: Property| p@)
    }
}

/// Why a feed gives no entries.
#[derive(Debug)]
pub enum IcsError {
    /// A calendar of the feed is not well formed. The text is the parser's.
    Calendar(String),
    /// A start or an end is no date of the form `YYYYMMDDTHHMMSS`, or none
    /// that can be represented.
    Date(String),
    /// The value of an `absolute` annotation is no decimal number.
    Absolute(String),
    /// The event of this name ends before it starts.
    EndsBeforeStart(String),
}

/// An error of a feed, without the parser's text.
pub enum Fault {
    Calendar,
    Date(Seq<char>),
    Absolute(Seq<char>),
    EndsBeforeStart(Seq<char>),
}

impl View for IcsError {
    type V = Fault;

    open spec fn view(&self) -> Fault {
        match self {
            IcsError::Calendar(_) => Fault::Calendar,
            IcsError::Date(value) => Fault::Date(value@),
            IcsError::Absolute(value) => Fault::Absolute(value@),
            IcsError::EndsBeforeStart(name) => Fault::EndsBeforeStart(name@),
        }
    }
}

impl IcsError {
    /// What the error is about: the parser's text, or the value or name at
    /// fault.
    pub open spec fn detail(&self) -> Seq<char> {
        match self {
            IcsError::Calendar(detail) => detail@,
            IcsError::Date(detail) => detail@,
            IcsError::Absolute(detail) => detail@,
            IcsError::EndsBeforeStart(detail) => detail@,
        }
    }

    /// How the line of text of the error begins.
    pub open spec fn heading(&self) -> Seq<char> {
        match self {
            IcsError::Calendar(_) => "calendar not well formed: "@,
            IcsError::Date(_) => "not a date: "@,
            IcsError::Absolute(_) => "not a number of days: "@,
            IcsError::EndsBeforeStart(_) => "event ends before it starts: "@,
        }
    }

    /// The error as one line of text.
    pub fn message(&self) -> (text: String)
        ensures
            text@ == self.heading() + self.detail(),
    {
        let (mut text, detail) = match self {
            IcsError::Calendar(detail) => (String::from_str("calendar not well formed: "), detail),
            IcsError::Date(detail) => (String::from_str("not a date: "), detail),
            IcsError::Absolute(detail) => (String::from_str("not a number of days: "), detail),
            IcsError::EndsBeforeStart(detail) => (
                String::from_str("event ends before it starts: "),
                detail,
            ),
        };
        text.append(detail.as_str());
        text
    }
}

/// The calendars that `ical` finds in a feed, in their order: for each the
/// properties of its events, or `None` where `ical` gives up on it.
pub uninterp spec fn ical_calendars(body: Seq<u8>) -> Seq<
    Option<Seq<Seq<(Seq<char>, Option<Seq<char>>)>>>,
>;

/// The timestamp that `chrono` reads from `value` under `format`, or `None`
/// where it reads none.
pub uninterp spec fn parsed_timestamp(value: Seq<char>, format: Seq<char>) -> Option<int>;

/// The events of a calendar, each as its properties.
pub open spec fn event_views(events: Seq<Event>) -> Seq<Seq<(Seq<char>, Option<Seq<char>>)>> {
    events.map_values(|e: Event| e@)
}

/// What was read of each calendar: its events, or `None` for an error.
pub open spec fn calendar_views(
    calendars: Seq<Result<Vec<Event>, ical::parser::ParserError>>,
) -> Seq<Option<Seq<Seq<(Seq<char>, Option<Seq<char>>)>>>> {
    calendars.map_values(
        |c: Result<Vec<Event>, ical::parser::ParserError>|
            match c {
                Ok(events) => Some(event_views(events@)),
                Err(_) => None,
            },
    )
}

/// Runs `ical::IcalParser` over the feed and collects what it yields, each
/// event as the names and values of its properties. The parser's result is a
/// function of the bytes alone; the contract names it `ical_calendars` and
/// says nothing else of it.
#[verifier::external_body]
pub(crate) fn read_calendars(body: &[u8]) -> (out: Vec<
    Result<Vec<Event>, ical::parser::ParserError>,
>)
    ensures
        calendar_views(out@) == ical_calendars(body@),
{
    IcalParser::new(body).map(|calendar| calendar.map(|c| c.events.into_iter().map(|e| Event {
        properties: e.properties.into_iter().map(
            |p| Property { name: p.name, value: p.value },
        ).collect(),
    }).collect())).collect()
}

/// Calls `Display` on an error of `ical`. Nothing is said of the text.
#[verifier::external_body]
pub(crate) fn describe(error: &ical::parser::ParserError) -> (text: String) {
    error.to_string()
}

/// Calls `chrono::NaiveDateTime::parse_from_str` and, on the date and time it
/// gives, `and_utc` and `timestamp`. The result is a function of the two
/// strings alone; the contract names it `parsed_timestamp` and says nothing
/// else of it.
#[verifier::external_body]
pub(crate) fn parse_date(value: &str, format: &str) -> (out: Result<
    i64,
    chrono::format::ParseError,
>)
    ensures
        match out {
            Ok(timestamp) => parsed_timestamp(value@, format@) == Some(timestamp as int),
            Err(_) => parsed_timestamp(value@, format@) is None,
        },
{
    NaiveDateTime::parse_from_str(value, format).map(|t| t.and_utc().timestamp())
}

/// The timestamp that a start or an end gives: that of a date of the form
/// `YYYYMMDDTHHMMSS` which can be represented.
pub open spec fn timestamp_of(value: Seq<char>) -> Option<int> {
    match parsed_timestamp(value, "%Y%m%dT%H%M%S"@) {
        Some(timestamp) => if timestamp_in_range(timestamp) {
            Some(timestamp)
        } else {
            None
        },
        None => None,
    }
}

/// Reads a start or an end.
pub fn read_timestamp(value: &str) -> (out: Option<i64>)
    ensures
        match out {
            Some(timestamp) => timestamp_of(value@) == Some(timestamp as int),
            None => timestamp_of(value@) is None,
        },
{
    match parse_date(value, "%Y%m%dT%H%M%S") {
        Ok(timestamp) => if crate::calendar::MIN_TIMESTAMP <= timestamp && timestamp
            <= crate::calendar::MAX_TIMESTAMP {
            Some(timestamp)
        } else {
            None
        },
        Err(_) => None,
    }
}

/// What the properties of an event say of it.
pub struct Fields {
    pub name: Option<Seq<char>>,
    pub description: Option<Seq<char>>,
    pub start: Option<int>,
    pub end: Option<int>,
}

/// The fields as the machine holds them.
pub struct Found {
    pub name: Option<String>,
    pub description: Option<String>,
    pub start: Option<i64>,
    pub end: Option<i64>,
}

impl Found {
    /// The start and the end, where there are any, can be represented.
    pub open spec fn in_range(&self) -> bool {
        &&& self.start is Some ==> timestamp_in_range(self.start->0 as int)
        &&& self.end is Some ==> timestamp_in_range(self.end->0 as int)
    }
}

impl View for Found {
    type V = Fields;

    open spec fn view(&self) -> Fields {
        Fields {
            name: match self.name {
                Some(name) => Some(name@),
                None => None,
            },
            description: match self.description {
                Some(description) => Some(description@),
                None => None,
            },
            start: match self.start {
                Some(start) => Some(start as int),
                None => None,
            },
            end: match self.end {
                Some(end) => Some(end as int),
                None => None,
            },
        }
    }
}

/// The fields after one more property: `SUMMARY` gives the name,
/// `DESCRIPTION` the description, `DTSTART` and `DTEND` with a value the
/// start and the end. A start or end that is no date is an error; any other
/// property changes nothing.
pub open spec fn with_property(fields: Fields, property: (Seq<char>, Option<Seq<char>>)) -> Result<
    Fields,
    Fault,
> {
    let (name, value) = property;
    if name == "SUMMARY"@ {
        Ok(Fields { name: value, ..fields })
    } else if name == "DESCRIPTION"@ {
        Ok(Fields { description: value, ..fields })
    } else if name == "DTSTART"@ && value is Some {
        match timestamp_of(value->0) {
            Some(start) => Ok(Fields { start: Some(start), ..fields }),
            None => Err(Fault::Date(value->0)),
        }
    } else if name == "DTEND"@ && value is Some {
        match timestamp_of(value->0) {
            Some(end) => Ok(Fields { end: Some(end), ..fields }),
            None => Err(Fault::Date(value->0)),
        }
    } else {
        Ok(fields)
    }
}

/// The fields that the properties give, read in their order, or the first
/// error.
pub open spec fn fields_of(properties: Seq<(Seq<char>, Option<Seq<char>>)>) -> Result<Fields, Fault>
    decreases properties.len(),
{
    if properties.len() == 0 {
        Ok(Fields { name: None, description: None, start: None, end: None })
    } else {
        match fields_of(properties.drop_last()) {
            Ok(fields) => with_property(fields, properties.last()),
            Err(fault) => Err(fault),
        }
    }
}

/// What the annotations of a description say.
pub struct Notes {
    pub workday: bool,
    pub absolute: Option<int>,
}

/// The notes as the machine holds them.
#[derive(Clone, Copy, Debug)]
pub struct Noted {
    pub workday: bool,
    pub absolute: Option<u32>,
}

impl View for Noted {
    type V = Notes;

    open spec fn view(&self) -> Notes {
        Notes {
            workday: self.workday,
            absolute: match self.absolute {
                Some(units) => Some(units as int),
                None => None,
            },
        }
    }
}

/// The notes after one more line. A line is a key and, behind the first
/// colon, a value, both without the white space around them. `absolute` gives
/// the override, as a decimal number of days; `workday` or `work-day` with
/// `0`, `no` or `false`, and `outofoffice` or `out-of-office` with nothing,
/// `1`, `yes` or `true`, say that the event is no work. Any other line changes
/// nothing.
pub open spec fn with_line(notes: Notes, line: Seq<char>) -> Result<Notes, Fault> {
    let key = trimmed(before_first(line, ':'));
    let value = trimmed(behind_first(line, ':'));
    if key == "absolute"@ {
        match thousandths_of(value) {
            Some(units) => Ok(Notes { absolute: Some(units), ..notes }),
            None => Err(Fault::Absolute(value)),
        }
    } else if (key == "workday"@ || key == "work-day"@) && (value == "0"@ || value == "no"@ || value
        == "false"@) {
        Ok(Notes { workday: false, ..notes })
    } else if (key == "outofoffice"@ || key == "out-of-office"@) && (value == ""@ || value == "1"@
        || value == "yes"@ || value == "true"@) {
        Ok(Notes { workday: false, ..notes })
    } else {
        Ok(notes)
    }
}

/// The notes that the lines give, read in their order, or the first error.
pub open spec fn notes_of(lines: Seq<Seq<char>>) -> Result<Notes, Fault>
    decreases lines.len(),
{
    if lines.len() == 0 {
        Ok(Notes { workday: true, absolute: None })
    } else {
        match notes_of(lines.drop_last()) {
            Ok(notes) => with_line(notes, lines.last()),
            Err(fault) => Err(fault),
        }
    }
}

/// The notes of an event: those of the lines of its description, if it has
/// one.
pub open spec fn notes_in(description: Option<Seq<char>>) -> Result<Notes, Fault> {
    match description {
        Some(text) => notes_of(lines_of(text)),
        None => notes_of(Seq::empty()),
    }
}

/// The entry of an event with a name, a start and an end. Its project is what
/// stands before the first colon of the name and its task what stands behind
/// it, both without the white space around them.
pub open spec fn entry_of(fields: Fields, notes: Notes) -> EntryView {
    let name = fields.name->0;
    EntryView {
        id: name,
        description: match fields.description {
            Some(text) => text,
            None => name,
        },
        billable: true,
        project: trimmed(before_first(name, ':')),
        task: trimmed(behind_first(name, ':')),
        tags: if notes.workday {
            Seq::empty()
        } else {
            seq!["out-of-office"@]
        },
        start: fields.start->0,
        end: fields.end->0,
        absolute: notes.absolute,
    }
}

/// What becomes of an event: an error, nothing, or an entry. It is nothing
/// without a name, a start or an end, and where it ends before `from` or
/// starts after `to`.
pub open spec fn event_outcome(
    properties: Seq<(Seq<char>, Option<Seq<char>>)>,
    from: int,
    to: int,
) -> Result<Option<EntryView>, Fault> {
    match fields_of(properties) {
        Err(fault) => Err(fault),
        Ok(fields) => if fields.name is None || fields.start is None || fields.end is None {
            Ok(None)
        } else if fields.end->0 < from || fields.start->0 > to {
            Ok(None)
        } else if fields.end->0 < fields.start->0 {
            Err(Fault::EndsBeforeStart(fields.name->0))
        } else {
            match notes_in(fields.description) {
                Err(fault) => Err(fault),
                Ok(notes) => Ok(Some(entry_of(fields, notes))),
            }
        },
    }
}

/// The entries so far with those of `events` behind them, or the first error.
pub open spec fn events_outcome(
    so_far: Result<Seq<EntryView>, Fault>,
    events: Seq<Seq<(Seq<char>, Option<Seq<char>>)>>,
    from: int,
    to: int,
) -> Result<Seq<EntryView>, Fault>
    decreases events.len(),
{
    if events.len() == 0 {
        so_far
    } else {
        match events_outcome(so_far, events.drop_last(), from, to) {
            Err(fault) => Err(fault),
            Ok(list) => match event_outcome(events.last(), from, to) {
                Err(fault) => Err(fault),
                Ok(Some(entry)) => Ok(list.push(entry)),
                Ok(None) => Ok(list),
            },
        }
    }
}

/// The entries of a feed, calendar by calendar and event by event, or the
/// first error: that of an event, or that of a calendar that is not well
/// formed.
pub open spec fn feed_outcome(
    calendars: Seq<Option<Seq<Seq<(Seq<char>, Option<Seq<char>>)>>>>,
    from: int,
    to: int,
) -> Result<Seq<EntryView>, Fault>
    decreases calendars.len(),
{
    if calendars.len() == 0 {
        Ok(Seq::empty())
    } else {
        match feed_outcome(calendars.drop_last(), from, to) {
            Err(fault) => Err(fault),
            Ok(list) => match calendars.last() {
                None => Err(Fault::Calendar),
                Some(events) => events_outcome(Ok(list), events, from, to),
            },
        }
    }
}

/// The views of entries.
pub open spec fn entry_views(entries: Seq<Entry>) -> Seq<EntryView> {
    entries.map_values(|e: Entry| e@)
}

/// Whether what was computed is what was to be computed.
pub open spec fn is_outcome(
    out: Result<Vec<Entry>, IcsError>,
    wanted: Result<Seq<EntryView>, Fault>,
) -> bool {
    match out {
        Ok(entries) => wanted == Ok::<Seq<EntryView>, Fault>(entry_views(entries@)),
        Err(error) => wanted == Err::<Seq<EntryView>, Fault>(error@),
    }
}

/// A copy of a text that may be missing.
fn copy_text(text: &Option<String>) -> (out: Option<String>)
    ensures
        match (text, out) {
            (Some(a), Some(b)) => a@ == b@,
            (None, None) => true,
            _ => false,
        },
{
    match text {
        Some(text) => Some(text.clone()),
        None => None,
    }
}

/// Reads the properties of an event.
pub fn read_fields(event: &Event) -> (out: Result<Found, IcsError>)
    ensures
        match out {
            Ok(found) => fields_of(event@) == Ok::<Fields, Fault>(found@),
            Err(error) => fields_of(event@) == Err::<Fields, Fault>(error@),
        },
        match out {
            Ok(found) => found.in_range(),
            Err(_) => true,
        },
{
    let n = event.properties.len();
    let ghost all = event@;
    let mut found = Found { name: None, description: None, start: None, end: None };
    let mut fault: Option<IcsError> = None;
    let mut i: usize = 0;
    while i < n
        invariant
            n == event.properties@.len(),
            all == event@,
            0 <= i <= n,
            match fault {
                None => fields_of(all.take(i as int)) == Ok::<Fields, Fault>(found@),
                Some(error) => fields_of(all.take(i as int)) == Err::<Fields, Fault>(error@),
            },
            found.in_range(),
        decreases n - i,
    {
        let property = &event.properties[i];
        proof {
            assert(all.take(i as int + 1).drop_last() =~= all.take(i as int));
            assert(all.take(i as int + 1).last() == property@);
        }
        if fault.is_none() {
            let name = property.name.as_str();
            if same_text(name, "SUMMARY") {
                found.name = copy_text(&property.value);
            } else if same_text(name, "DESCRIPTION") {
                found.description = copy_text(&property.value);
            } else if same_text(name, "DTSTART") {
                match &property.value {
                    Some(value) => match read_timestamp(value.as_str()) {
                        Some(start) => {
                            found.start = Some(start);
                        },
                        None => {
                            fault = Some(IcsError::Date(value.clone()));
                        },
                    },
                    None => {},
                }
            } else if same_text(name, "DTEND") {
                match &property.value {
                    Some(value) => match read_timestamp(value.as_str()) {
                        Some(end) => {
                            found.end = Some(end);
                        },
                        None => {
                            fault = Some(IcsError::Date(value.clone()));
                        },
                    },
                    None => {},
                }
            }
        }
        i += 1;
    }
    proof {
        assert(all.take(n as int) =~= all);
    }
    match fault {
        Some(error) => Err(error),
        None => Ok(found),
    }
}

/// Reads one line of a description into the notes.
pub fn read_line(notes: Noted, line: &str) -> (out: Result<Noted, IcsError>)
    ensures
        match out {
            Ok(noted) => with_line(notes@, line@) == Ok::<Notes, Fault>(noted@),
            Err(error) => with_line(notes@, line@) == Err::<Notes, Fault>(error@),
        },
{
    proof {
        reveal_strlit(":");
    }
    let (head, tail) = cut_at(line, ":");
    let key = trim_ascii(head);
    let value = trim_ascii(tail);
    if same_text(key, "absolute") {
        match parse_thousandths(value) {
            Some(units) => Ok(Noted { workday: notes.workday, absolute: Some(units) }),
            None => Err(IcsError::Absolute(String::from_str(value))),
        }
    } else if (same_text(key, "workday") || same_text(key, "work-day")) && (same_text(value, "0")
        || same_text(value, "no") || same_text(value, "false")) {
        Ok(Noted { workday: false, absolute: notes.absolute })
    } else if (same_text(key, "outofoffice") || same_text(key, "out-of-office")) && (same_text(
        value,
        "",
    ) || same_text(value, "1") || same_text(value, "yes") || same_text(value, "true")) {
        Ok(Noted { workday: false, absolute: notes.absolute })
    } else {
        Ok(notes)
    }
}

/// Reads the annotations of a description.
pub fn read_notes(description: &Option<String>) -> (out: Result<Noted, IcsError>)
    ensures
        match out {
            Ok(noted) => notes_in(
                match description {
                    Some(text) => Some(text@),
                    None => None,
                },
            ) == Ok::<Notes, Fault>(noted@),
            Err(error) => notes_in(
                match description {
                    Some(text) => Some(text@),
                    None => None,
                },
            ) == Err::<Notes, Fault>(error@),
        },
{
    let mut noted = Noted { workday: true, absolute: None };
    let text = match description {
        Some(text) => text,
        None => {
            return Ok(noted);
        },
    };
    let all = lines(text.as_str());
    let n = all.len();
    let ghost list = lines_of(text@);
    let mut fault: Option<IcsError> = None;
    let mut i: usize = 0;
    while i < n
        invariant
            n == all@.len(),
            list == slices(all@),
            0 <= i <= n,
            match fault {
                None => notes_of(list.take(i as int)) == Ok::<Notes, Fault>(noted@),
                Some(error) => notes_of(list.take(i as int)) == Err::<Notes, Fault>(error@),
            },
        decreases n - i,
    {
        proof {
            assert(list.take(i as int + 1).drop_last() =~= list.take(i as int));
            assert(list.take(i as int + 1).last() == all@[i as int]@);
        }
        if fault.is_none() {
            match read_line(noted, all[i]) {
                Ok(next) => {
                    noted = next;
                },
                Err(error) => {
                    fault = Some(error);
                },
            }
        }
        i += 1;
    }
    proof {
        assert(list.take(n as int) =~= list);
    }
    match fault {
        Some(error) => Err(error),
        None => Ok(noted),
    }
}

/// What becomes of an event: an error, nothing, or an entry that is valid.
pub fn entry_of_event(event: &Event, from: i64, to: i64) -> (out: Result<Option<Entry>, IcsError>)
    ensures
        match out {
            Ok(Some(entry)) => event_outcome(event@, from as int, to as int) == Ok::<
                Option<EntryView>,
                Fault,
            >(Some(entry@)) && entry.valid(),
            Ok(None) => event_outcome(event@, from as int, to as int) == Ok::<
                Option<EntryView>,
                Fault,
            >(None),
            Err(error) => event_outcome(event@, from as int, to as int) == Err::<
                Option<EntryView>,
                Fault,
            >(error@),
        },
{
    let found = match read_fields(event) {
        Ok(found) => found,
        Err(error) => {
            return Err(error);
        },
    };
    let ghost fields = found@;
    let (name, start, end) = match (&found.name, found.start, found.end) {
        (Some(name), Some(start), Some(end)) => (name, start, end),
        _ => {
            return Ok(None);
        },
    };
    if end < from || start > to {
        return Ok(None);
    }
    if end < start {
        return Err(IcsError::EndsBeforeStart(name.clone()));
    }
    let noted = match read_notes(&found.description) {
        Ok(noted) => noted,
        Err(error) => {
            return Err(error);
        },
    };
    proof {
        reveal_strlit(":");
    }
    let (head, tail) = cut_at(name.as_str(), ":");
    let project = String::from_str(trim_ascii(head));
    let task = String::from_str(trim_ascii(tail));
    let mut tags: Vec<String> = Vec::new();
    if !noted.workday {
        tags.push(String::from_str("out-of-office"));
    }
    let description = match &found.description {
        Some(text) => text.clone(),
        None => name.clone(),
    };
    let entry = Entry {
        id: name.clone(),
        description,
        billable: true,
        project,
        task,
        tags,
        start,
        end,
        absolute: noted.absolute,
    };
    proof {
        let wanted = entry_of(fields, noted@);
        assert(entry@.tags =~= wanted.tags);
        assert(entry@ == wanted);
    }
    Ok(Some(entry))
}

/// The entries of the calendars read from a feed, or the first error.
pub fn entries_of_calendars(
    calendars: &Vec<Result<Vec<Event>, ical::parser::ParserError>>,
    from: i64,
    to: i64,
) -> (out: Result<Vec<Entry>, IcsError>)
    ensures
        is_outcome(out, feed_outcome(calendar_views(calendars@), from as int, to as int)),
        out is Ok ==> forall|i: int|
            0 <= i < out->Ok_0@.len() ==> (#[trigger] out->Ok_0@[i]).valid(),
{
    let n = calendars.len();
    let ghost all = calendar_views(calendars@);
    let mut entries: Vec<Entry> = Vec::new();
    let mut fault: Option<IcsError> = None;
    let mut c: usize = 0;
    proof {
        assert(entry_views(entries@) =~= Seq::<EntryView>::empty());
    }
    while c < n
        invariant
            n == calendars@.len(),
            all == calendar_views(calendars@),
            0 <= c <= n,
            match fault {
                None => feed_outcome(all.take(c as int), from as int, to as int) == Ok::<
                    Seq<EntryView>,
                    Fault,
                >(entry_views(entries@)),
                Some(error) => feed_outcome(all.take(c as int), from as int, to as int) == Err::<
                    Seq<EntryView>,
                    Fault,
                >(error@),
            },
            forall|i: int| 0 <= i < entries@.len() ==> (#[trigger] entries@[i]).valid(),
        decreases n - c,
    {
        proof {
            assert(all.take(c as int + 1).drop_last() =~= all.take(c as int));
            assert(all.take(c as int + 1).last() == all[c as int]);
        }
        if fault.is_none() {
            match &calendars[c] {
                Err(error) => {
                    fault = Some(IcsError::Calendar(describe(error)));
                },
                Ok(events) => {
                    let count = events.len();
                    let ghost list = event_views(events@);
                    let ghost before = Ok::<Seq<EntryView>, Fault>(entry_views(entries@));
                    let mut e: usize = 0;
                    while e < count
                        invariant
                            count == events@.len(),
                            list == event_views(events@),
                            0 <= e <= count,
                            match fault {
                                None => events_outcome(
                                    before,
                                    list.take(e as int),
                                    from as int,
                                    to as int,
                                ) == Ok::<Seq<EntryView>, Fault>(entry_views(entries@)),
                                Some(error) => events_outcome(
                                    before,
                                    list.take(e as int),
                                    from as int,
                                    to as int,
                                ) == Err::<Seq<EntryView>, Fault>(error@),
                            },
                            forall|i: int|
                                0 <= i < entries@.len() ==> (#[trigger] entries@[i]).valid(),
                        decreases count - e,
                    {
                        proof {
                            assert(list.take(e as int + 1).drop_last() =~= list.take(e as int));
                            assert(list.take(e as int + 1).last() == events@[e as int]@);
                        }
                        if fault.is_none() {
                            let ghost held = entries@;
                            match entry_of_event(&events[e], from, to) {
                                Ok(Some(entry)) => {
                                    entries.push(entry);
                                    proof {
                                        assert(entry_views(entries@) =~= entry_views(held).push(
                                            entry@,
                                        ));
                                    }
                                },
                                Ok(None) => {},
                                Err(error) => {
                                    fault = Some(error);
                                },
                            }
                        }
                        e += 1;
                    }
                    proof {
                        assert(list.take(count as int) =~= list);
                    }
                },
            }
        }
        c += 1;
    }
    proof {
        assert(all.take(n as int) =~= all);
    }
    match fault {
        Some(error) => Err(error),
        None => Ok(entries),
    }
}

/// An iCalendar feed at a URL.
#[derive(Debug)]
pub struct Ics {
    url: String,
}

impl Ics {
    /// The URL of the feed.
    pub closed spec fn spec_url(&self) -> Seq<char> {
        self.url@
    }

    /// The feed at the URL that the options give under `url`.
    pub fn new(options: Vec<(String, String)>) -> (ics: Ics)
        requires
            option_value(options@, "url"@) is Some,
        ensures
            Some(ics.spec_url()) == option_value(options@, "url"@),
    {
        let key = String::from_str("url");
        let mut j: usize = options.len();
        proof {
            assert(options@.take(j as int) =~= options@);
        }
        while j > 0
            invariant
                0 <= j <= options@.len(),
                key@ == "url"@,
                option_value(options@, "url"@) == option_value(options@.take(j as int), "url"@),
            decreases j,
        {
            proof {
                assert(options@.take(j as int).drop_last() =~= options@.take(j - 1));
                assert(options@.take(j as int).last() == options@[j - 1]);
            }
            j -= 1;
            if options[j].0 == key {
                return Ics { url: options[j].1.clone() };
            }
        }
        Ics { url: String::new() }
    }

    /// The URL of the feed.
    pub fn url(&self) -> (url: &str)
        ensures
            url@ == self.spec_url(),
    {
        self.url.as_str()
    }

    /// The entries of the feed whose bytes are `body`: those of its events
    /// that do not end before `from` nor start after `to`, or the first error.
    /// Every entry is valid.
    pub fn entries(body: &[u8], from: i64, to: i64) -> (out: Result<Vec<Entry>, IcsError>)
        ensures
            is_outcome(out, feed_outcome(ical_calendars(body@), from as int, to as int)),
            out is Ok ==> forall|i: int|
                0 <= i < out->Ok_0@.len() ==> (#[trigger] out->Ok_0@[i]).valid(),
    {
        let calendars = read_calendars(body);
        entries_of_calendars(&calendars, from, to)
    }
}

} // verus!
