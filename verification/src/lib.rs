//! A small cron-table line parser and formatter.
//!
//! A line holds five time fields (minute, hour, day of month, month, day of
//! week) followed by a command string. [`parser::parse_cron_item`] turns a
//! line into a [`CronItem`]; the `to_string` methods render a value back to
//! its canonical text. The grammar and the canonical text are defined as
//! specification functions in [`grammar`], and the round-trip between the two
//! directions is proved in [`round_trip`].

pub mod cron_item;
pub mod grammar;
pub mod parser;
pub mod round_trip;

pub use cron_item::{CronItem, TimeItem};
pub use parser::ParserError;
