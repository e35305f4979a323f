//! Readings of the local clock. A `ClockReading` is made only by
//! `read_clock`, so a record stamped with one carries the time the clock gave.
use vstd::prelude::*;

use crate::logger::{format_time, local_now, local_time_in_range, timestamp_text, LocalTime, TIMESTAMP_PATTERN};

verus! {

/// The local date and time read from the clock, with the stamp `chrono`
/// wrote for it.
pub struct ClockReading {
    stamp: String,
    time: Ghost<LocalTime>,
}

impl ClockReading {
    /// The stamp, as written.
    pub closed spec fn stamp_spec(&self) -> Seq<char> {
        self.stamp@
    }

    /// The parts of the time read.
    pub closed spec fn time_spec(&self) -> LocalTime {
        self.time@
    }

    /// Made by `read_clock`: the stamp is the time's `YYYY/MM/DD HH:MM:SS`
    /// text and the time lies in `chrono`'s ranges.
    pub closed spec fn is_reading(&self) -> bool {
        self.stamp@ == timestamp_text(self.time@) && local_time_in_range(self.time@)
    }

    /// The stamp.
    pub fn stamp(&self) -> (s: &str)
        ensures
            s@ == self.stamp_spec(),
    {
        self.stamp.as_str()
    }
}

/// Reads the local clock once.
pub fn read_clock() -> (r: ClockReading)
    ensures
        r.is_reading(),
{
    let now = local_now();
    let (stamp, time) = format_time(&now, TIMESTAMP_PATTERN);
    ClockReading { stamp, time: Ghost(time) }
}

/// The stamp of a clock reading is the text of the time read: year, month,
/// day, hour, minute and second, zero padded and separated as
/// `YYYY/MM/DD HH:MM:SS`, each part in its range.
pub proof fn lemma_reading_is_stamped(r: ClockReading)
    requires
        r.is_reading(),
    ensures
        r.stamp_spec() == timestamp_text(r.time_spec()),
        local_time_in_range(r.time_spec()),
{
}

} // verus!
