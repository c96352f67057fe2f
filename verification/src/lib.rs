//! Core of a desktop log-viewing tool: parsing of newline-delimited JSON
//! log files into records, a lazy per-file cache of parse results, and the
//! session bookkeeping (open files, most-recently-used history) together
//! with its persisted settings form.

pub mod json;
pub mod log_read;
pub mod session;
pub mod settings;
