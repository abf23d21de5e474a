//! Sources of entries.

pub mod ics;
