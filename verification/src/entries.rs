//! The record of one piece of work.

use crate::calendar::{day_of, day_of_timestamp, timestamp_in_range};
use vstd::prelude::*;
use vstd::string::*;

verus! {

/// One thousandth of a day: the unit in which an entry's override is given.
pub const ABSOLUTE_UNITS_PER_DAY: u32 = 1000;

/// One piece of work, as an entry source hands it over.
#[derive(Debug, Clone)]
pub struct Entry {
    pub id: String,
    pub description: String,
    pub billable: bool,
    pub project: String,
    pub task: String,
    /// The tag `out-of-office` marks time away from work.
    pub tags: Vec<String>,
    /// Start, in seconds since 1970-01-01T00:00:00 UTC.
    pub start: i64,
    /// End, in seconds since 1970-01-01T00:00:00 UTC.
    pub end: i64,
    /// Where present, the entry counts as this many thousandths of a day,
    /// whatever its duration.
    pub absolute: Option<u32>,
}

/// An entry over sequences and integers.
pub struct EntryView {
    pub id: Seq<char>,
    pub description: Seq<char>,
    pub billable: bool,
    pub project: Seq<char>,
    pub task: Seq<char>,
    pub tags: Seq<Seq<char>>,
    pub start: int,
    pub end: int,
    pub absolute: Option<int>,
}

impl View for Entry {
    type V = EntryView;

    open spec fn view(&self) -> EntryView {
        EntryView {
            id: self.id@,
            description: self.description@,
            billable: self.billable,
            project: self.project@,
            task: self.task@,
            tags: self.tags@.map_values(|tag: String| tag@),
            start: self.start as int,
            end: self.end as int,
            absolute: match self.absolute {
                Some(units) => Some(units as int),
                None => None,
            },
        }
    }
}

impl Entry {
    /// Both timestamps are representable and the entry does not end before it
    /// starts.
    pub open spec fn valid(&self) -> bool {
        &&& timestamp_in_range(self.start as int)
        &&& timestamp_in_range(self.end as int)
        &&& self.start <= self.end
    }

    /// Seconds from start to end.
    pub open spec fn spec_duration(&self) -> int {
        self.end - self.start
    }

    /// The day on which the entry starts.
    pub open spec fn start_day(&self) -> int {
        day_of_timestamp(self.start as int)
    }

    /// The row under which the entry is reported: the project, followed by a
    /// colon and the task where there is a task.
    pub open spec fn row_key(&self) -> Seq<char> {
        if self.task@.len() == 0 {
            self.project@
        } else {
            self.project@ + seq![':'] + self.task@
        }
    }

    /// Whether one of the tags is `out-of-office`.
    pub open spec fn out_of_office(&self) -> bool {
        exists|i: int| 0 <= i < self.tags@.len() && (#[trigger] self.tags@[i])@ == "out-of-office"@
    }

    /// Whether the entry is valid.
    pub fn is_valid(&self) -> (ok: bool)
        ensures
            ok == self.valid(),
    {
        crate::calendar::MIN_TIMESTAMP <= self.start && self.start <= self.end && self.end
            <= crate::calendar::MAX_TIMESTAMP
    }

    /// Seconds from start to end.
    pub fn duration(&self) -> (seconds: u64)
        requires
            self.valid(),
        ensures
            seconds == self.spec_duration(),
    {
        (self.end - self.start) as u64
    }

    /// The day on which the entry starts.
    pub fn get_start_day(&self) -> (day: i64)
        requires
            self.valid(),
        ensures
            day == self.start_day(),
    {
        day_of(self.start)
    }

    /// The row under which the entry is reported.
    pub fn to_project_task(&self) -> (key: String)
        ensures
            key@ == self.row_key(),
    {
        let mut key = self.project.clone();
        if !self.task.as_str().is_empty() {
            proof {
                reveal_strlit(":");
            }
            key.append(":");
            key.append(self.task.as_str());
            assert(":"@ =~= seq![':']);
        }
        key
    }

    /// Whether the entry is tagged as time out of office.
    pub fn is_out_of_office(&self) -> (away: bool)
        ensures
            away == self.out_of_office(),
    {
        let marker = String::from_str("out-of-office");
        let mut i: usize = 0;
        while i < self.tags.len()
            invariant
                0 <= i <= self.tags@.len(),
                marker@ == "out-of-office"@,
                forall|j: int| 0 <= j < i ==> (#[trigger] self.tags@[j])@ != "out-of-office"@,
            decreases self.tags@.len() - i,
        {
            if self.tags[i] == marker {
                return true;
            }
            i += 1;
        }
        false
    }
}

impl Default for Entry {
    /// An entry without text, tags or override, at the first second of 1970.
    fn default() -> (entry: Entry)
        ensures
            entry.id@.len() == 0,
            entry.description@.len() == 0,
            entry.billable == false,
            entry.project@.len() == 0,
            entry.task@.len() == 0,
            entry.tags@.len() == 0,
            entry.start == 0,
            entry.end == 0,
            entry.absolute is None,
    {
        Entry {
            id: String::new(),
            description: String::new(),
            billable: false,
            project: String::new(),
            task: String::new(),
            tags: Vec::new(),
            start: 0,
            end: 0,
            absolute: None,
        }
    }
}

} // verus!
