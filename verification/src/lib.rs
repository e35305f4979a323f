//! Reading recent records of a log file quickly, filtering them, and following
//! new writes; and a small logger that appends timestamped records.
pub mod severity;
pub mod filter;
pub mod record;
pub mod scan;
pub mod display;
pub mod logger;
pub mod settings;
pub mod follow;
pub mod clock;
pub mod paint;
