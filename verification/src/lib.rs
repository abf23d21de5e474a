//! Turns time-stamped work entries into a table that says, for every day, how
//! many percentage points of it went to each project and task.
//!
//! The entries are sorted by the day on which they start and cut into runs
//! of one period each (`tablers::partition`). Every run is apportioned on its
//! own: the quota calculator gives each row its share of the run's slots,
//! rounded by largest remainder (`tablers::quota`), and the day placement
//! allocator puts the quotas on days (`tablers::placement`). The placements
//! are written to one table (`tablers`, `tablers::month_proportional`).
//!
//! All shares are exact fractions of integers. Timestamps are whole seconds
//! since 1970-01-01T00:00:00 UTC; an override is given in thousandths of a
//! day. An entry tagged `out-of-office` is no work: it claims nothing and
//! makes no workday. Where rows tie, the row that appears first in the run
//! comes first; where days tie, the earlier day.
//!
//! What is proved of the table: that it is a function of what the entries
//! hold (`tablers::determinism`), that no day takes more than its slots
//! (`tablers::capacity`), and when every workday is filled to the last slot
//! (`tablers::conservation`).
//!
//! The civil calendar comes from `chrono` and the reading of feeds from
//! `ical`; what is taken from them on trust is said where they are called
//! (`calendar`, `providers::ics`, `text`).

pub mod calendar;
pub mod entries;
pub mod errors;
pub mod interning;
pub mod numbers;
pub mod ordering;
pub mod providers;
pub mod tablers;
pub mod text;
pub mod utils;
