//! A verified clock-in / clock-out day log.
//!
//! The crate models one day's worked hours as a four-slot state machine
//! (morning start, morning end, afternoon start, afternoon end), keeps an
//! ordered log of one entry per day, and converts the log to and from a
//! comma-separated tabular text form. The update engine, the codec and the
//! log store are verified; reading the clock and touching the file system
//! are left to the surrounding application.

pub mod codec;
pub mod error;
pub mod timelog;
