//! The logger: it appends records of the form
//! `YYYY/MM/DD HH:MM:SS [LEVEL] message` to a file. The library builds the
//! record; the caller owns the file and appends the record to it.
use vstd::prelude::*;

use crate::clock::{lemma_reading_is_stamped, read_clock, ClockReading};

verus! {

/// The levels a logged record can have.
#[derive(Clone, Copy, Debug, PartialEq, Eq, Structural)]
pub enum Level {
    Debug,
    Info,
    Warn,
    Error,
    Trace,
}

/// The label written for each level. `Warn` is written `[WARNING]`.
pub open spec fn level_label(level: Level) -> Seq<char> {
    match level {
        Level::Trace => "[TRACE]"@,
        Level::Debug => "[DEBUG]"@,
        Level::Info => "[INFO]"@,
        Level::Warn => "[WARNING]"@,
        Level::Error => "[ERROR]"@,
    }
}

impl Level {
    /// The label written for this level.
    pub fn to_string(&self) -> (s: &'static str)
        ensures
            s@ == level_label(*self),
    {
        match self {
            Level::Trace => "[TRACE]",
            Level::Debug => "[DEBUG]",
            Level::Info => "[INFO]",
            Level::Warn => "[WARNING]",
            Level::Error => "[ERROR]",
        }
    }
}

/// The record logged at `stamp` (the local date and time): the stamp, the
/// level's label and the message, separated by spaces, ending in a newline.
pub open spec fn record_line(stamp: Seq<char>, level: Level, message: Seq<char>) -> Seq<char> {
    stamp + " "@ + level_label(level) + " "@ + message + "\n"@
}

/// The pattern of the timestamp: `2024/01/31 13:05:09`.
pub const TIMESTAMP_PATTERN: &'static str = "%Y/%m/%d %H:%M:%S";

#[verifier::external_type_specification]
#[verifier::external_body]
pub struct ExNaiveDateTime(chrono::NaiveDateTime);

/// `chrono::Local::now`, as the local date and time (`naive_local`). It
/// depends on the clock and the time zone, so nothing is stated of it.
#[verifier::external_body]
pub(crate) fn local_now() -> chrono::NaiveDateTime {
    chrono::Local::now().naive_local()
}

/// The parts of a local date and time, as `chrono` reports them
/// (`Datelike`, `Timelike`). `nanosecond` reaches past one second only during
/// a leap second.
#[derive(Clone, Copy, Debug, PartialEq, Eq, Structural)]
pub struct LocalTime {
    pub year: i32,
    pub month: u32,
    pub day: u32,
    pub hour: u32,
    pub minute: u32,
    pub second: u32,
    pub nanosecond: u32,
}

/// The ranges `chrono` documents for the parts of a date and time.
pub open spec fn local_time_in_range(t: LocalTime) -> bool {
    &&& 1 <= t.month <= 12
    &&& 1 <= t.day <= 31
    &&& t.hour <= 23
    &&& t.minute <= 59
    &&& t.second <= 59
    &&& t.nanosecond < 2_000_000_000
}

/// The decimal digit `d` (below 10).
pub open spec fn digit(d: nat) -> char {
    (48 + d) as char
}

/// The decimal digits of `n`, without leading zeros.
pub open spec fn decimal(n: nat) -> Seq<char>
    decreases n,
{
    if n < 10 {
        seq![digit(n)]
    } else {
        decimal(n / 10).push(digit(n % 10))
    }
}

/// The decimal digits of `n`, with zeros in front up to `width` digits.
pub open spec fn zero_padded(n: nat, width: nat) -> Seq<char> {
    let d = decimal(n);
    if d.len() >= width {
        d
    } else {
        Seq::new((width - d.len()) as nat, |i: int| '0') + d
    }
}

/// `%Y`: the year with at least four digits; years after 9999 and before 0
/// carry a sign.
pub open spec fn year_text(y: int) -> Seq<char> {
    if 0 <= y <= 9999 {
        zero_padded(y as nat, 4)
    } else if y > 9999 {
        "+"@ + zero_padded(y as nat, 4)
    } else {
        "-"@ + zero_padded((-y) as nat, 4)
    }
}

/// `%m`, `%d`, `%H`, `%M`, `%S`: two digits, zero padded.
pub open spec fn two_digits(v: nat) -> Seq<char> {
    seq![digit(v / 10), digit(v % 10)]
}

/// The timestamp `%Y/%m/%d %H:%M:%S` of a local time. During a leap second
/// the seconds read 60.
pub open spec fn timestamp_text(t: LocalTime) -> Seq<char> {
    year_text(t.year as int) + "/"@ + two_digits(t.month as nat) + "/"@ + two_digits(t.day as nat)
        + " "@ + two_digits(t.hour as nat) + ":"@ + two_digits(t.minute as nat) + ":"@
        + two_digits((t.second + t.nanosecond / 1_000_000_000) as nat)
}

/// `NaiveDateTime::format` of `chrono`, written out as a `String`, together
/// with the parts of the time it wrote (`Datelike`, `Timelike`). Only the
/// timestamp pattern of this library is passed: `chrono` fails to write an
/// invalid pattern, which would make `to_string` panic. For that pattern
/// `chrono` writes the text `timestamp_text` states (its strftime
/// documentation: zero-padded fields, a sign on years outside 0..=9999), and
/// the parts lie in the ranges it documents.
#[verifier::external_body]
pub(crate) fn format_time(time: &chrono::NaiveDateTime, pattern: &str) -> (r: (String, LocalTime))
    requires
        pattern@ == TIMESTAMP_PATTERN@,
    ensures
        r.0@ == timestamp_text(r.1),
        local_time_in_range(r.1),
{
    (
        time.format(pattern).to_string(),
        LocalTime {
            year: chrono::Datelike::year(time),
            month: chrono::Datelike::month(time),
            day: chrono::Datelike::day(time),
            hour: chrono::Timelike::hour(time),
            minute: chrono::Timelike::minute(time),
            second: chrono::Timelike::second(time),
            nanosecond: chrono::Timelike::nanosecond(time),
        },
    )
}

/// Builds the record for `message` at `level`, stamped with `stamp`.
pub fn format_record(stamp: &str, level: Level, message: &str) -> (line: String)
    ensures
        line@ == record_line(stamp@, level, message@),
{
    let mut line = String::new();
    line.append(stamp);
    line.append(" ");
    line.append(level.to_string());
    line.append(" ");
    line.append(message);
    line.append("\n");
    line
}

/// A logger that appends to the file at `path`.
#[derive(Debug, PartialEq, Eq)]
pub struct Logger {
    path: String,
}

impl Logger {
    /// A logger for the file at `path`. Creating the file, if it is missing,
    /// is up to the caller, which owns the file system.
    pub fn new(path: &str) -> (logger: Logger)
        ensures
            logger.path_spec() == path@,
    {
        Logger { path: path.to_owned() }
    }

    /// The path of the log file.
    pub closed spec fn path_spec(&self) -> Seq<char> {
        self.path@
    }

    /// The path of the log file.
    pub fn path(&self) -> (p: &str)
        ensures
            p@ == self.path_spec(),
    {
        self.path.as_str()
    }

    /// The record to append for `message` at `level`, stamped with the
    /// current local date and time as `YYYY/MM/DD HH:MM:SS`. Which time it
    /// is depends on the clock and the time zone.
    pub fn log_message(&self, message: &str, level: Level) -> (line: String)
        ensures
            exists|time: LocalTime|
                local_time_in_range(time) && line@ == record_line(
                    #[trigger] timestamp_text(time),
                    level,
                    message@,
                ),
            exists|reading: ClockReading|
                reading.is_reading() && line@ == record_line(
                    #[trigger] reading.stamp_spec(),
                    level,
                    message@,
                ),
    {
        let reading = read_clock();
        let line = format_record(reading.stamp(), level, message);
        proof {
            lemma_reading_is_stamped(reading);
            assert(line@ == record_line(timestamp_text(reading.time_spec()), level, message@));
            assert(line@ == record_line(reading.stamp_spec(), level, message@));
        }
        line
    }
}

} // verus!
