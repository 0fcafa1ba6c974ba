//! ptl - a small project time logger.
//!
//! Sessions of work are recorded as start/stop timestamps in a log file in
//! the working directory; the identity that owns a session comes from a
//! per-user configuration file. This crate holds the whole of that logic:
//! the data model, the operations `start`, `stop` and `total`, and the
//! textual format of the config and log files. File and terminal I/O live
//! with the caller.

pub mod codec;
pub mod config;
pub mod digits;
pub mod ops;
pub mod timelog;
